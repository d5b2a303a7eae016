//! `(include ...)` splicing: the scan of one file into text and include
//! forms, and the walk over the included files, which checks for cycles.
//!
//! Reading files and resolving paths is left to the caller: it feeds each
//! file's contents in with `Preprocessor::open` and drives the walk with
//! `Preprocessor::step`.
use vstd::prelude::*;
use vstd::string::*;
use vstd::utf8::*;
use crate::sexpr::is_ascii_ws;
use crate::text::{
    at_char_start, lemma_after_ascii, lemma_start_char_start, str_eq, string_of, substring,
    to_chars, trim, trim_bounds,
};

verus! {

// ---------------------------------------------------------------------------
// The scan of one file
// ---------------------------------------------------------------------------

/// The bytes of the word `include`.
pub open spec fn include_word() -> Seq<u8> {
    seq![0x69u8, 0x6e, 0x63, 0x6c, 0x75, 0x64, 0x65]
}

/// An include form starts at `i`: `(include` followed by whitespace or the end.
pub open spec fn include_at(b: Seq<u8>, i: int) -> bool {
    &&& 0 <= i
    &&& i + 8 <= b.len()
    &&& b[i] == 0x28
    &&& b.subrange(i + 1, i + 8) == include_word()
    &&& (i + 8 == b.len() || is_ascii_ws(b[i + 8]))
}

/// The position after the line that `i` is on: after its `\n`, or the end.
pub open spec fn line_end(b: Seq<u8>, i: nat) -> nat
    decreases b.len() - i,
{
    if i >= b.len() {
        b.len()
    } else if b[i as int] == 0x0a {
        i + 1
    } else {
        line_end(b, i + 1)
    }
}

/// The first position at or after `j` that holds a `\n`, or the end.
pub open spec fn newline_at_or_after(b: Seq<u8>, j: nat) -> nat
    decreases b.len() - j,
{
    if j >= b.len() || b[j as int] == 0x0a {
        j
    } else {
        newline_at_or_after(b, j + 1)
    }
}

/// The first position at or after `j` that does not hold a `#`, or the end.
pub open spec fn hash_end(b: Seq<u8>, j: nat) -> nat
    decreases b.len() - j,
{
    if j >= b.len() || b[j as int] != 0x23 {
        j
    } else {
        hash_end(b, j + 1)
    }
}

/// The `h` bytes from `j` on are all `#`.
pub open spec fn all_hash(b: Seq<u8>, j: nat, h: nat) -> bool {
    forall|k: int| j <= k < j + h ==> b[k] == 0x23
}

pub proof fn lemma_line_end(b: Seq<u8>, i: nat)
    ensures
        i < b.len() ==> i < line_end(b, i),
        line_end(b, i) <= b.len() || line_end(b, i) == i,
    decreases b.len() - i,
{
    if i < b.len() && b[i as int] != 0x0a {
        lemma_line_end(b, i + 1);
    }
}

pub proof fn lemma_newline_at_or_after(b: Seq<u8>, j: nat)
    ensures
        j <= newline_at_or_after(b, j),
        j <= b.len() ==> newline_at_or_after(b, j) <= b.len(),
    decreases b.len() - j,
{
    if !(j >= b.len() || b[j as int] == 0x0a) {
        lemma_newline_at_or_after(b, j + 1);
    }
}

pub proof fn lemma_hash_end(b: Seq<u8>, j: nat)
    ensures
        j <= hash_end(b, j),
        j <= b.len() ==> hash_end(b, j) <= b.len(),
        forall|k: int| j <= k < hash_end(b, j) ==> b[k] == 0x23,
    decreases b.len() - j,
{
    if !(j >= b.len() || b[j as int] != 0x23) {
        lemma_hash_end(b, j + 1);
    }
}

/// How the scan of an include form ends: after its closing `)`, at the end
/// of the input with the form still open, or where the check for the
/// closing `#`s of a raw string would run past the end.
pub enum FormScan {
    Closed(nat),
    Unclosed,
    Overrun,
}

/// The scan of an include form from `j`, with `depth` parentheses open,
/// inside a string or not, and `h` the number of `#`s of the raw string it
/// is in: `;;` comments run to the line's end, strings and raw strings hide
/// parentheses, a `\` in a plain string hides the byte after it.
pub open spec fn form_scan(b: Seq<u8>, j: nat, depth: nat, in_str: bool, h: nat) -> FormScan
    decreases b.len() + 2 - j,
{
    if !(j < b.len() && depth > 0) {
        if depth != 0 {
            FormScan::Unclosed
        } else {
            FormScan::Closed(j)
        }
    } else if in_str {
        if b[j as int] == 0x22 {
            if j + 1 + h > b.len() {
                FormScan::Overrun
            } else if all_hash(b, j + 1, h) {
                form_scan(b, j + 1 + h, depth, false, 0)
            } else {
                form_scan(b, j + 1, depth, true, h)
            }
        } else if h == 0 && b[j as int] == 0x5c {
            form_scan(b, j + 2, depth, true, h)
        } else {
            form_scan(b, j + 1, depth, true, h)
        }
    } else if b[j as int] == 0x3b && j + 1 < b.len() && b[j + 1 as int] == 0x3b {
        proof {
            lemma_newline_at_or_after(b, j + 2);
        }
        form_scan(b, newline_at_or_after(b, j + 2), depth, false, 0)
    } else if b[j as int] == 0x22 {
        form_scan(b, j + 1, depth, true, 0)
    } else if b[j as int] == 0x72 && j + 1 < b.len() && b[j + 1 as int] == 0x23 {
        proof {
            lemma_hash_end(b, j + 1);
        }
        let k = hash_end(b, j + 1);
        if k < b.len() && b[k as int] == 0x22 {
            form_scan(b, k + 1, depth, true, (k - (j + 1)) as nat)
        } else {
            form_scan(b, j + 1, depth, false, 0)
        }
    } else if b[j as int] == 0x28 {
        form_scan(b, j + 1, depth + 1, false, 0)
    } else if b[j as int] == 0x29 {
        form_scan(b, j + 1, (depth - 1) as nat, false, 0)
    } else {
        form_scan(b, j + 1, depth, false, 0)
    }
}

pub proof fn lemma_form_scan(b: Seq<u8>, j: nat, depth: nat, in_str: bool, h: nat)
    ensures
        form_scan(b, j, depth, in_str, h) matches FormScan::Closed(e) ==> e >= j && (depth > 0
            ==> e > j && e <= b.len() && b[e - 1] == 0x29),
    decreases b.len() + 2 - j,
{
    if j < b.len() && depth > 0 {
        if in_str {
            if b[j as int] == 0x22 {
                if j + 1 + h > b.len() {
                } else if all_hash(b, j + 1, h) {
                    lemma_form_scan(b, j + 1 + h, depth, false, 0);
                } else {
                    lemma_form_scan(b, j + 1, depth, true, h);
                }
            } else if h == 0 && b[j as int] == 0x5c {
                lemma_form_scan(b, j + 2, depth, true, h);
            } else {
                lemma_form_scan(b, j + 1, depth, true, h);
            }
        } else if b[j as int] == 0x3b && j + 1 < b.len() && b[j + 1 as int] == 0x3b {
            lemma_newline_at_or_after(b, j + 2);
            lemma_form_scan(b, newline_at_or_after(b, j + 2), depth, false, 0);
        } else if b[j as int] == 0x22 {
            lemma_form_scan(b, j + 1, depth, true, 0);
        } else if b[j as int] == 0x72 && j + 1 < b.len() && b[j + 1 as int] == 0x23 {
            lemma_hash_end(b, j + 1);
            let k = hash_end(b, j + 1);
            if k < b.len() && b[k as int] == 0x22 {
                lemma_form_scan(b, k + 1, depth, true, (k - (j + 1)) as nat);
            } else {
                lemma_form_scan(b, j + 1, depth, false, 0);
            }
        } else if b[j as int] == 0x28 {
            lemma_form_scan(b, j + 1, depth + 1, false, 0);
        } else if b[j as int] == 0x29 {
            lemma_form_scan(b, j + 1, (depth - 1) as nat, false, 0);
        } else {
            lemma_form_scan(b, j + 1, depth, false, 0);
        }
    }
}

/// What a piece of a scanned file is.
pub enum PieceV {
    Text(Seq<char>),
    Include(Seq<char>),
}

/// `str::trim`, then the surrounding double quotes taken off if there are two.
pub open spec fn strip_quotes_spec(s: Seq<char>) -> Seq<char> {
    let t = trim(s);
    if t.len() >= 2 && t[0] == '"' && t.last() == '"' {
        t.subrange(1, t.len() - 1)
    } else {
        t
    }
}

/// The path named by the include form that starts at `i` and ends at `j`.
pub open spec fn include_path(b: Seq<u8>, i: int, j: int) -> Seq<char> {
    strip_quotes_spec(trim(decode_utf8(b.subrange(i + 8, j - 1))))
}

/// The text of the bytes `a..e`, as a piece, unless it is empty.
pub open spec fn text_piece(b: Seq<u8>, a: int, e: int) -> Seq<PieceV> {
    if a < e {
        seq![PieceV::Text(decode_utf8(b.subrange(a, e)))]
    } else {
        seq![]
    }
}

/// The scan of `b` from `i`, with the text since `run` not yet given out:
/// the pieces, and whether it stopped at an include form left open.
/// Text runs up to each include form; a `;;` comment is text, and an
/// include form inside it is not one.
pub open spec fn scan_from(b: Seq<u8>, i: nat, run: nat) -> (Seq<PieceV>, bool)
    decreases b.len() - i,
{
    if i >= b.len() {
        (text_piece(b, run as int, b.len() as int), false)
    } else if b[i as int] == 0x3b && i + 1 < b.len() && b[i + 1 as int] == 0x3b {
        proof {
            lemma_line_end(b, i);
        }
        scan_from(b, line_end(b, i), run)
    } else if include_at(b, i as int) {
        match form_scan(b, i + 1, 1, false, 0) {
            FormScan::Closed(j) => {
                proof {
                    lemma_form_scan(b, i + 1, 1, false, 0);
                }
                let r = scan_from(b, j, j);
                (
                    text_piece(b, run as int, i as int) + seq![
                        PieceV::Include(include_path(b, i as int, j as int)),
                    ] + r.0,
                    r.1,
                )
            },
            _ => (text_piece(b, run as int, i as int), true),
        }
    } else {
        scan_from(b, i + 1, run)
    }
}

/// Whether the scan of `b` from `i` reaches an include form whose scan
/// runs past the end (see `FormScan::Overrun`).
pub open spec fn overruns_from(b: Seq<u8>, i: nat) -> bool
    decreases b.len() - i,
{
    if i >= b.len() {
        false
    } else if b[i as int] == 0x3b && i + 1 < b.len() && b[i + 1 as int] == 0x3b {
        proof {
            lemma_line_end(b, i);
        }
        overruns_from(b, line_end(b, i))
    } else if include_at(b, i as int) {
        match form_scan(b, i + 1, 1, false, 0) {
            FormScan::Closed(j) => {
                proof {
                    lemma_form_scan(b, i + 1, 1, false, 0);
                }
                overruns_from(b, j)
            },
            FormScan::Overrun => true,
            FormScan::Unclosed => false,
        }
    } else {
        overruns_from(b, i + 1)
    }
}

/// The scan of the file `b`: its pieces, and whether it ends in an include
/// form left open.
pub open spec fn scan_spec(b: Seq<u8>) -> (Seq<PieceV>, bool) {
    scan_from(b, 0, 0)
}

/// The scan of the file `b` reaches a raw string in an include form whose
/// closing check runs past the end of the file.
pub open spec fn scan_overruns_spec(b: Seq<u8>) -> bool {
    overruns_from(b, 0)
}

// ---------------------------------------------------------------------------
// Scanning
// ---------------------------------------------------------------------------

/// A piece of a scanned file: text to copy, or the path an include form names.
#[derive(Debug)]
pub enum Piece {
    Text(String),
    Include(String),
}

impl View for Piece {
    type V = PieceV;

    open spec fn view(&self) -> PieceV {
        match self {
            Piece::Text(t) => PieceV::Text(t@),
            Piece::Include(p) => PieceV::Include(p@),
        }
    }
}

/// The views of pieces.
pub open spec fn pieces_view(v: Seq<Piece>) -> Seq<PieceV> {
    v.map_values(|p: Piece| p@)
}

/// A scanned file: its pieces, and whether it ends in an include form left open.
#[derive(Debug)]
pub struct Scan {
    pub pieces: Vec<Piece>,
    pub unclosed: bool,
}

impl View for Scan {
    type V = (Seq<PieceV>, bool);

    open spec fn view(&self) -> (Seq<PieceV>, bool) {
        (pieces_view(self.pieces@), self.unclosed)
    }
}

/// Whether the byte after `(include` lets the word end there: ASCII
/// whitespace, or the end of the input.
fn is_boundary(b: Option<u8>) -> (r: bool)
    ensures
        r == match b {
            Some(c) => is_ascii_ws(c),
            None => true,
        },
{
    match b {
        Some(c) => c == 0x20 || c == 0x09 || c == 0x0a || c == 0x0c || c == 0x0d,
        None => true,
    }
}

/// Whether an include form starts at `i`.
fn is_include_at(b: &[u8], i: usize) -> (r: bool)
    requires
        i < b@.len(),
    ensures
        r == include_at(b@, i as int),
{
    if b[i] != 0x28 || b.len() - i < 8 {
        return false;
    }
    let word: [u8; 7] = [0x69, 0x6e, 0x63, 0x6c, 0x75, 0x64, 0x65];
    let mut k: usize = 0;
    while k < 7
        invariant
            k <= 7,
            i + 8 <= b.len(),
            word@ == include_word(),
            forall|m: int| 0 <= m < k ==> b@[i + 1 + m] == include_word()[m],
        decreases 7 - k,
    {
        if b[i + 1 + k] != word[k] {
            assert(b@.subrange(i + 1, i + 8)[k as int] != include_word()[k as int]);
            return false;
        }
        k = k + 1;
    }
    assert(b@.subrange(i + 1, i + 8) =~= include_word());
    let next = if i + 8 < b.len() {
        Some(b[i + 8])
    } else {
        None
    };
    is_boundary(next)
}

/// How the exec scan of an include form ends.
enum FormEnd {
    Closed(usize),
    Unclosed,
    Overrun,
}

/// Whether the `h` bytes from `j` on are all `#`.
fn hashes_at(b: &[u8], j: usize, h: usize) -> (r: bool)
    requires
        j + h <= b@.len(),
    ensures
        r == all_hash(b@, j as nat, h as nat),
{
    let mut k: usize = 0;
    while k < h
        invariant
            j + h <= b.len(),
            k <= h,
            forall|m: int| j <= m < j + k ==> b@[m] == 0x23,
        decreases h - k,
    {
        if b[j + k] != 0x23 {
            return false;
        }
        k = k + 1;
    }
    true
}

/// The first position at or after `e` that holds a `\n`, or the end.
fn newline_from(b: &[u8], e: usize) -> (r: usize)
    requires
        e <= b@.len(),
    ensures
        r == newline_at_or_after(b@, e as nat),
{
    let mut k = e;
    while k < b.len() && b[k] != 0x0a
        invariant
            e <= k <= b@.len(),
            newline_at_or_after(b@, k as nat) == newline_at_or_after(b@, e as nat),
        decreases b@.len() - k,
    {
        k = k + 1;
    }
    k
}

/// The first position at or after `j` that does not hold a `#`, or the end.
fn hash_run_end(b: &[u8], j: usize) -> (r: usize)
    requires
        j <= b@.len(),
    ensures
        r == hash_end(b@, j as nat),
{
    let mut k = j;
    while k < b.len() && b[k] == 0x23
        invariant
            j <= k <= b@.len(),
            hash_end(b@, k as nat) == hash_end(b@, j as nat),
        decreases b@.len() - k,
    {
        k = k + 1;
    }
    k
}

/// The scan of the include form that starts at `i`.
fn scan_form(b: &[u8], i: usize) -> (r: FormEnd)
    requires
        i < b@.len() < usize::MAX,
    ensures
        match r {
            FormEnd::Closed(j) => form_scan(b@, (i + 1) as nat, 1, false, 0) == FormScan::Closed(
                j as nat,
            ),
            FormEnd::Unclosed => form_scan(b@, (i + 1) as nat, 1, false, 0) == FormScan::Unclosed,
            FormEnd::Overrun => form_scan(b@, (i + 1) as nat, 1, false, 0) == FormScan::Overrun,
        },
{
    let ghost res = form_scan(b@, (i + 1) as nat, 1, false, 0);
    let mut depth: usize = 1;
    let mut j: usize = i + 1;
    let mut in_str = false;
    let mut h: usize = 0;
    while j < b.len() && depth > 0
        invariant
            b@.len() < usize::MAX,
            res == form_scan(b@, (i + 1) as nat, 1, false, 0),
            form_scan(b@, j as nat, depth as nat, in_str, h as nat) == res,
            1 <= j <= b@.len() + 1,
            depth <= j,
            h < j,
            !in_str ==> h == 0,
        decreases b@.len() + 2 - j,
    {
        let c = b[j];
        if in_str {
            if c == 0x22 {
                if h > b.len() - j - 1 {
                    assert(form_scan(b@, j as nat, depth as nat, in_str, h as nat) == FormScan::Overrun);
                    return FormEnd::Overrun;
                }
                if hashes_at(b, j + 1, h) {
                    j = j + 1 + h;
                    in_str = false;
                    h = 0;
                } else {
                    j = j + 1;
                        }
            } else if h == 0 && c == 0x5c {
                j = j + 2;
                } else {
                j = j + 1;
                }
        } else if c == 0x3b && j + 1 < b.len() && b[j + 1] == 0x3b {
            proof {
                lemma_newline_at_or_after(b@, (j + 2) as nat);
            }
            j = newline_from(b, j + 2);
        } else if c == 0x22 {
            in_str = true;
            h = 0;
            j = j + 1;
        } else if c == 0x72 && j + 1 < b.len() && b[j + 1] == 0x23 {
            let k = hash_run_end(b, j + 1);
            proof {
                lemma_hash_end(b@, (j + 1) as nat);
            }
            if k < b.len() && b[k] == 0x22 {
                in_str = true;
                h = k - (j + 1);
                j = k + 1;
                } else {
                j = j + 1;
                }
        } else if c == 0x28 {
            depth = depth + 1;
            j = j + 1;
        } else if c == 0x29 {
            depth = depth - 1;
            j = j + 1;
        } else {
            j = j + 1;
        }
    }
    if depth != 0 {
        FormEnd::Unclosed
    } else {
        FormEnd::Closed(j)
    }
}

/// `str::trim`, then the surrounding double quotes taken off if there are two.
pub fn strip_quotes(s: &str) -> (r: String)
    ensures
        r@ == strip_quotes_spec(s@),
{
    let v = to_chars(s);
    let (a, e) = trim_bounds(&v, 0, v.len());
    assert(v@.subrange(0, v@.len() as int) =~= s@);
    if e - a >= 2 && v[a] == '"' && v[e - 1] == '"' {
        string_of(&v, a + 1, e - 1)
    } else {
        string_of(&v, a, e)
    }
}

/// An include form closes at least after its word and the whitespace
/// that follows, on a `)`.
pub proof fn lemma_include_form(b: Seq<u8>, i: nat)
    requires
        include_at(b, i as int),
    ensures
        form_scan(b, i + 1, 1, false, 0) matches FormScan::Closed(e) ==> i + 10 <= e <= b.len()
            && b[e - 1] == 0x29,
{
    let w = include_word();
    assert forall|k: int| 0 <= k < 7 implies b[i + 1 + k] == w[k] by {
        assert(b.subrange(i + 1 as int, i + 8 as int)[k] == b[i + 1 + k]);
    }
    assert(form_scan(b, i + 1, 1, false, 0) == form_scan(b, i + 2, 1, false, 0));
    assert(form_scan(b, i + 2, 1, false, 0) == form_scan(b, i + 3, 1, false, 0));
    assert(form_scan(b, i + 3, 1, false, 0) == form_scan(b, i + 4, 1, false, 0));
    assert(form_scan(b, i + 4, 1, false, 0) == form_scan(b, i + 5, 1, false, 0));
    assert(form_scan(b, i + 5, 1, false, 0) == form_scan(b, i + 6, 1, false, 0));
    assert(form_scan(b, i + 6, 1, false, 0) == form_scan(b, i + 7, 1, false, 0));
    assert(form_scan(b, i + 7, 1, false, 0) == form_scan(b, i + 8, 1, false, 0));
    if i + 8 < b.len() {
        assert(form_scan(b, i + 8, 1, false, 0) == form_scan(b, i + 9, 1, false, 0));
        lemma_form_scan(b, i + 9, 1, false, 0);
    }
}

/// The position after the line that `i` is on.
fn line_end_at(b: &[u8], i: usize) -> (r: usize)
    requires
        i <= b@.len(),
        b@.len() < usize::MAX,
    ensures
        r == line_end(b@, i as nat),
{
    let mut k = i;
    while k < b.len() && b[k] != 0x0a
        invariant
            i <= k <= b@.len(),
            line_end(b@, k as nat) == line_end(b@, i as nat),
        decreases b@.len() - k,
    {
        k = k + 1;
    }
    if k < b.len() {
        k + 1
    } else {
        k
    }
}

/// Appends the text of the bytes `a..e` of `content` as a piece, unless it is empty.
fn push_text(pieces: &mut Vec<Piece>, content: &str, a: usize, e: usize)
    requires
        a <= e,
        at_char_start(content.spec_bytes(), a as int),
        at_char_start(content.spec_bytes(), e as int),
    ensures
        pieces_view(final(pieces)@) == pieces_view(old(pieces)@) + text_piece(
            content.spec_bytes(),
            a as int,
            e as int,
        ),
{
    if a < e {
        let t = substring(content, a, e);
        let ghost before = pieces@;
        pieces.push(Piece::Text(t));
        assert(pieces_view(pieces@) =~= pieces_view(before) + text_piece(
            content.spec_bytes(),
            a as int,
            e as int,
        ));
    } else {
        assert(pieces_view(pieces@) =~= pieces_view(old(pieces)@) + text_piece(
            content.spec_bytes(),
            a as int,
            e as int,
        ));
    }
}

/// The path named by the include form of `content` that starts at `i` and ends at `j`.
fn include_path_of(content: &str, i: usize, j: usize) -> (r: String)
    requires
        i + 8 <= j - 1,
        j <= content.spec_bytes().len(),
        at_char_start(content.spec_bytes(), i + 8),
        at_char_start(content.spec_bytes(), j - 1),
    ensures
        r@ == include_path(content.spec_bytes(), i as int, j as int),
{
    let inner = substring(content, i + 8, j - 1);
    let v = to_chars(inner.as_str());
    let (a, e) = trim_bounds(&v, 0, v.len());
    assert(v@.subrange(0, v@.len() as int) =~= inner@);
    let t = string_of(&v, a, e);
    strip_quotes(t.as_str())
}

/// How the exec scan of a file ends.
enum ScanEnd {
    Scanned(Scan),
    Overrun,
}

/// The scan of the file `content`, or `Overrun` where its scan would run
/// past its end.
fn scan_file(content: &str) -> (r: ScanEnd)
    requires
        content.spec_bytes().len() < usize::MAX,
    ensures
        match r {
            ScanEnd::Scanned(s) => !scan_overruns_spec(content.spec_bytes()) && s@ == scan_spec(
                content.spec_bytes(),
            ),
            ScanEnd::Overrun => scan_overruns_spec(content.spec_bytes()),
        },
{
    let b = content.as_bytes();
    let ghost total = scan_spec(b@);
    let mut pieces: Vec<Piece> = Vec::new();
    let mut i: usize = 0;
    let mut run: usize = 0;
    proof {
        encode_utf8_valid_utf8(content@);
        lemma_start_char_start(b@);
        assert(pieces_view(pieces@) =~= Seq::<PieceV>::empty());
        assert(pieces_view(pieces@) + scan_from(b@, 0, 0).0 =~= total.0);
    }
    while i < b.len()
        invariant
            b@ == content.spec_bytes(),
            b@.len() < usize::MAX,
            valid_utf8(b@),
            run <= i <= b@.len(),
            at_char_start(b@, run as int),
            total == scan_spec(b@),
            pieces_view(pieces@) + scan_from(b@, i as nat, run as nat).0 == total.0,
            scan_from(b@, i as nat, run as nat).1 == total.1,
            overruns_from(b@, i as nat) == scan_overruns_spec(b@),
        decreases b@.len() - i,
    {
        if b[i] == 0x3b && i + 1 < b.len() && b[i + 1] == 0x3b {
            proof {
                lemma_line_end(b@, i as nat);
            }
            i = line_end_at(b, i);
        } else if is_include_at(b, i) {
            proof {
                lemma_include_form(b@, i as nat);
            }
            match scan_form(b, i) {
                FormEnd::Closed(j) => {
                    let ghost before = pieces_view(pieces@);
                    let ghost rest = scan_from(b@, j as nat, j as nat);
                    push_text(&mut pieces, content, run, i);
                    let path = include_path_of(content, i, j);
                    pieces.push(Piece::Include(path));
                    proof {
                        lemma_after_ascii(b@, j - 1);
                        assert(pieces_view(pieces@) =~= before + text_piece(b@, run as int, i as int)
                            + seq![PieceV::Include(include_path(b@, i as int, j as int))]);
                    }
                    i = j;
                    run = j;
                },
                FormEnd::Unclosed => {
                    push_text(&mut pieces, content, run, i);
                    assert(pieces_view(pieces@) =~= total.0);
                    return ScanEnd::Scanned(Scan { pieces, unclosed: true });
                },
                FormEnd::Overrun => {
                    return ScanEnd::Overrun;
                },
            }
        } else {
            i = i + 1;
        }
    }
    push_text(&mut pieces, content, run, i);
    assert(pieces_view(pieces@) =~= total.0);
    ScanEnd::Scanned(Scan { pieces, unclosed: false })
}

/// Whether scanning `content` reaches a raw string in an include form whose
/// closing check runs past the end of `content`.
pub fn scan_overruns(content: &str) -> (r: bool)
    requires
        content.spec_bytes().len() < usize::MAX,
    ensures
        r == scan_overruns_spec(content.spec_bytes()),
{
    match scan_file(content) {
        ScanEnd::Scanned(_) => false,
        ScanEnd::Overrun => true,
    }
}

/// `content` split into the text to copy and the paths its include forms
/// name, in order, and whether it ends in an include form left open.
pub fn scan_includes(content: &str) -> (r: Scan)
    requires
        content.spec_bytes().len() < usize::MAX,
        !scan_overruns_spec(content.spec_bytes()),
    ensures
        r@ == scan_spec(content.spec_bytes()),
{
    match scan_file(content) {
        ScanEnd::Scanned(s) => s,
        ScanEnd::Overrun => {
            proof {
                assert(false);
            }
            Scan { pieces: Vec::new(), unclosed: false }
        },
    }
}

// ---------------------------------------------------------------------------
// The walk over included files
// ---------------------------------------------------------------------------

/// Why splicing includes failed: a file could not be read (with the
/// reason), or a file includes itself, directly or not.
#[derive(Debug)]
pub enum PreprocessKind {
    Io(String),
    Cyclic,
}

/// A failure to splice includes, with the path it concerns.
#[derive(Debug)]
pub struct PreprocessError {
    pub path: String,
    pub kind: PreprocessKind,
}

/// What a `PreprocessKind` is.
pub enum PreprocessKindV {
    Io(Seq<char>),
    Cyclic,
}

/// What a `PreprocessError` is.
pub struct PreprocessErrorV {
    pub path: Seq<char>,
    pub kind: PreprocessKindV,
}

impl View for PreprocessError {
    type V = PreprocessErrorV;

    open spec fn view(&self) -> PreprocessErrorV {
        PreprocessErrorV {
            path: self.path@,
            kind: match self.kind {
                PreprocessKind::Io(m) => PreprocessKindV::Io(m@),
                PreprocessKind::Cyclic => PreprocessKindV::Cyclic,
            },
        }
    }
}

/// A file being spliced: where it is, its pieces, how many of them are done,
/// and whether it ends in an include form left open.
struct Frame {
    canonical: String,
    path: String,
    pieces: Vec<Piece>,
    next: usize,
    unclosed: bool,
}

/// What a file being spliced is.
pub struct FrameV {
    pub canonical: Seq<char>,
    pub path: Seq<char>,
    pub pieces: Seq<PieceV>,
    pub next: nat,
    pub unclosed: bool,
}

impl View for Frame {
    type V = FrameV;

    closed spec fn view(&self) -> FrameV {
        FrameV {
            canonical: self.canonical@,
            path: self.path@,
            pieces: pieces_view(self.pieces@),
            next: self.next as nat,
            unclosed: self.unclosed,
        }
    }
}

/// The splicing of a file and the files it includes: the files open, the
/// innermost last, and the text spliced so far.
pub struct Preprocessor {
    frames: Vec<Frame>,
    out: String,
}

/// What a `Preprocessor` is.
pub struct PreprocessorV {
    pub frames: Seq<FrameV>,
    pub out: Seq<char>,
}

impl View for Preprocessor {
    type V = PreprocessorV;

    closed spec fn view(&self) -> PreprocessorV {
        PreprocessorV { frames: self.frames@.map_values(|f: Frame| f@), out: self.out@ }
    }
}

/// What the caller does next: call `step` again, open an included file, give
/// up with an error, or take the output.
#[derive(Debug)]
pub enum Step {
    Continue,
    Include { from: String, target: String },
    Fail(PreprocessError),
    Done,
}

/// What a `Step` is.
pub enum StepV {
    Continue,
    Include { from: Seq<char>, target: Seq<char> },
    Fail(PreprocessErrorV),
    Done,
}

impl View for Step {
    type V = StepV;

    open spec fn view(&self) -> StepV {
        match self {
            Step::Continue => StepV::Continue,
            Step::Include { from, target } => StepV::Include { from: from@, target: target@ },
            Step::Fail(e) => StepV::Fail(e@),
            Step::Done => StepV::Done,
        }
    }
}

/// The file whose canonical path is `c` is open.
pub open spec fn is_open(s: PreprocessorV, c: Seq<char>) -> bool {
    exists|k: int| 0 <= k < s.frames.len() && #[trigger] s.frames[k].canonical == c
}

/// Each open file has done at most all its pieces.
pub open spec fn frames_wf(s: PreprocessorV) -> bool {
    forall|k: int| 0 <= k < s.frames.len() ==> (#[trigger] s.frames[k]).next <= s.frames[k].pieces.len()
}

/// Opening the file at `path`, whose canonical path is `canonical`, with
/// the bytes read from it or the reason it could not be read: a file that
/// is already open is a cycle; one that could not be read fails; any other
/// is scanned and becomes the innermost open file.
pub open spec fn open_spec(
    s: PreprocessorV,
    path: Seq<char>,
    canonical: Seq<char>,
    content: Result<Seq<u8>, Seq<char>>,
) -> (PreprocessorV, Option<PreprocessErrorV>) {
    if is_open(s, canonical) {
        (s, Some(PreprocessErrorV { path: canonical, kind: PreprocessKindV::Cyclic }))
    } else {
        match content {
            Err(m) => (s, Some(PreprocessErrorV { path, kind: PreprocessKindV::Io(m) })),
            Ok(b) => (
                PreprocessorV {
                    frames: s.frames.push(
                        FrameV {
                            canonical,
                            path,
                            pieces: scan_spec(b).0,
                            next: 0,
                            unclosed: scan_spec(b).1,
                        },
                    ),
                    out: s.out,
                },
                None,
            ),
        }
    }
}

/// The reason given for an include form left open.
pub open spec fn unclosed_message() -> Seq<char> {
    "unclosed include form"@
}

/// One step of the splicing: the next piece of the innermost open file is
/// copied to the output (text) or asked to be opened (an include form); a
/// file with all its pieces done is closed, unless it ends in an include
/// form left open, which fails; with no file open, the splicing is done.
pub open spec fn step_spec(s: PreprocessorV) -> (PreprocessorV, StepV) {
    if s.frames.len() == 0 {
        (s, StepV::Done)
    } else {
        let f = s.frames.last();
        if f.next < f.pieces.len() {
            let frames = s.frames.update(s.frames.len() - 1, FrameV { next: f.next + 1, ..f });
            match f.pieces[f.next as int] {
                PieceV::Text(t) => (PreprocessorV { frames, out: s.out + t }, StepV::Continue),
                PieceV::Include(p) => (
                    PreprocessorV { frames, out: s.out },
                    StepV::Include { from: f.path, target: p },
                ),
            }
        } else if f.unclosed {
            (
                s,
                StepV::Fail(
                    PreprocessErrorV { path: f.path, kind: PreprocessKindV::Io(unclosed_message()) },
                ),
            )
        } else {
            (PreprocessorV { frames: s.frames.drop_last(), out: s.out }, StepV::Continue)
        }
    }
}

/// The view of an optional error.
pub open spec fn error_view(e: Option<PreprocessError>) -> Option<PreprocessErrorV> {
    match e {
        Some(e) => Some(e@),
        None => None,
    }
}

/// The bytes read from a file, or the reason it could not be read.
pub open spec fn content_view(c: Result<String, String>) -> Result<Seq<u8>, Seq<char>> {
    match c {
        Ok(t) => Ok(encode_utf8(t@)),
        Err(m) => Err(m@),
    }
}

impl Preprocessor {
    /// Well-formed: each open file has done at most all its pieces.
    pub closed spec fn wf(&self) -> bool {
        frames_wf(self@)
    }

    /// No file open, nothing spliced yet.
    pub fn new() -> (r: Preprocessor)
        ensures
            r.wf(),
            r@ == (PreprocessorV { frames: seq![], out: seq![] }),
    {
        let r = Preprocessor { frames: Vec::new(), out: String::new() };
        assert(r@.frames =~= Seq::<FrameV>::empty());
        r
    }

    /// Whether the file whose canonical path is `canonical` is open.
    pub fn has_open(&self, canonical: &str) -> (r: bool)
        ensures
            r == is_open(self@, canonical@),
    {
        let mut k: usize = 0;
        while k < self.frames.len()
            invariant
                k <= self.frames@.len(),
                self@.frames == self.frames@.map_values(|f: Frame| f@),
                forall|m: int| 0 <= m < k ==> self@.frames[m].canonical != canonical@,
            decreases self.frames@.len() - k,
        {
            if str_eq(self.frames[k].canonical.as_str(), canonical) {
                assert(self@.frames[k as int].canonical == canonical@);
                return true;
            }
            k = k + 1;
        }
        false
    }

    /// Opens the file at `path`, whose canonical path is `canonical`, given
    /// what reading it gave (see `open_spec`).
    pub fn open(&mut self, path: String, canonical: String, content: Result<String, String>) -> (r:
        Option<PreprocessError>)
        requires
            old(self).wf(),
            content matches Ok(c) ==> (!is_open(old(self)@, canonical@) ==> encode_utf8(c@).len()
                < usize::MAX && !scan_overruns_spec(encode_utf8(c@))),
        ensures
            final(self).wf(),
            (final(self)@, error_view(r)) == open_spec(
                old(self)@,
                path@,
                canonical@,
                content_view(content),
            ),
    {
        if self.has_open(canonical.as_str()) {
            return Some(PreprocessError { path: canonical, kind: PreprocessKind::Cyclic });
        }
        match content {
            Err(m) => Some(PreprocessError { path, kind: PreprocessKind::Io(m) }),
            Ok(c) => {
                let scan = scan_includes(c.as_str());
                let ghost before = self@;
                let Scan { pieces, unclosed } = scan;
                self.frames.push(Frame { canonical, path, pieces, next: 0, unclosed });
                assert(self@.frames =~= before.frames.push(
                    FrameV {
                        canonical: canonical@,
                        path: path@,
                        pieces: scan_spec(encode_utf8(c@)).0,
                        next: 0,
                        unclosed: scan_spec(encode_utf8(c@)).1,
                    },
                ));
                None
            },
        }
    }

    /// One step of the splicing (see `step_spec`).
    pub fn step(&mut self) -> (r: Step)
        requires
            old(self).wf(),
        ensures
            final(self).wf(),
            (final(self)@, r@) == step_spec(old(self)@),
    {
        let ghost s = self@;
        let n = self.frames.len();
        if n == 0 {
            return Step::Done;
        }
        assert(s.frames[n - 1] == self.frames@[n - 1]@);
        let next = self.frames[n - 1].next;
        if next < self.frames[n - 1].pieces.len() {
            let mut f = self.frames.pop().unwrap();
            f.next = next + 1;
            let r = match &f.pieces[next] {
                Piece::Text(t) => {
                    self.out.append(t.as_str());
                    Step::Continue
                },
                Piece::Include(p) => Step::Include { from: f.path.clone(), target: p.clone() },
            };
            self.frames.push(f);
            assert(self@.frames =~= s.frames.update(
                s.frames.len() - 1,
                FrameV { next: s.frames.last().next + 1, ..s.frames.last() },
            ));
            r
        } else if self.frames[n - 1].unclosed {
            Step::Fail(
                PreprocessError {
                    path: self.frames[n - 1].path.clone(),
                    kind: PreprocessKind::Io("unclosed include form".to_owned()),
                },
            )
        } else {
            self.frames.pop();
            assert(self@.frames =~= s.frames.drop_last());
            Step::Continue
        }
    }

    /// The text spliced so far.
    pub fn into_output(self) -> (r: String)
        ensures
            r@ == self@.out,
    {
        self.out
    }
}

// ---------------------------------------------------------------------------
// What the splicing guarantees
// ---------------------------------------------------------------------------

/// No two open files have the same canonical path.
pub open spec fn open_files_distinct(s: PreprocessorV) -> bool {
    forall|a: int, b: int|
        0 <= a < b < s.frames.len() ==> (#[trigger] s.frames[a]).canonical
            != (#[trigger] s.frames[b]).canonical
}

/// No file is ever open twice at once: opening a file and stepping keep
/// the canonical paths of the open files distinct, so a file that includes
/// itself, directly or through others, is refused instead of looping.
pub proof fn law_open_files_distinct(
    s: PreprocessorV,
    path: Seq<char>,
    canonical: Seq<char>,
    content: Result<Seq<u8>, Seq<char>>,
)
    requires
        open_files_distinct(s),
    ensures
        open_files_distinct(open_spec(s, path, canonical, content).0),
        open_files_distinct(step_spec(s).0),
{
    let t = open_spec(s, path, canonical, content).0;
    if !is_open(s, canonical) && content is Ok {
        assert forall|a: int, b: int| 0 <= a < b < t.frames.len() implies (#[trigger] t.frames[a]).canonical
            != (#[trigger] t.frames[b]).canonical by {
            if b == s.frames.len() {
                assert(t.frames[a] == s.frames[a]);
                assert(t.frames[b].canonical == canonical);
            } else {
                assert(t.frames[a] == s.frames[a]);
                assert(t.frames[b] == s.frames[b]);
            }
        }
    }
    let u = step_spec(s).0;
    if s.frames.len() > 0 {
        let f = s.frames.last();
        assert forall|a: int, b: int| 0 <= a < b < u.frames.len() implies (#[trigger] u.frames[a]).canonical
            != (#[trigger] u.frames[b]).canonical by {
            assert(u.frames[a].canonical == s.frames[a].canonical);
            assert(u.frames[b].canonical == s.frames[b].canonical);
        }
    }
}

/// The splicing only ever adds to its output: a step keeps what was spliced
/// before as the start of the output.
pub proof fn law_step_extends_output(s: PreprocessorV)
    ensures
        s.out.is_prefix_of(step_spec(s).0.out),
{
    let u = step_spec(s).0;
    assert(u.out.subrange(0, s.out.len() as int) =~= s.out);
}

proof fn lemma_scan_plain(b: Seq<u8>, i: nat, run: nat)
    requires
        run <= i,
        forall|k: int| i <= k < b.len() ==> b[k] != 0x28,
    ensures
        scan_from(b, i, run) == (text_piece(b, run as int, b.len() as int), false),
    decreases b.len() - i,
{
    if i < b.len() {
        if b[i as int] == 0x3b && i + 1 < b.len() && b[i + 1 as int] == 0x3b {
            lemma_line_end(b, i);
            lemma_scan_plain(b, line_end(b, i), run);
        } else {
            lemma_scan_plain(b, i + 1, run);
        }
    }
}

/// A file with no `(` holds no include form: its scan is its whole text,
/// which the splicing copies unchanged.
pub proof fn law_scan_plain(b: Seq<u8>)
    requires
        forall|k: int| 0 <= k < b.len() ==> b[k] != 0x28,
    ensures
        scan_spec(b) == (text_piece(b, 0, b.len() as int), false),
{
    lemma_scan_plain(b, 0, 0);
}


/// The walk only ever touches the innermost open file: opening a file adds
/// it after the open ones, and a step changes or closes only the innermost
/// one and keeps the output spliced so far. So once every file an include
/// opened has been spliced and closed, the open files are again those that
/// were open before it.
pub proof fn law_walk_touches_innermost(
    s: PreprocessorV,
    path: Seq<char>,
    canonical: Seq<char>,
    content: Result<Seq<u8>, Seq<char>>,
)
    ensures
        ({
            let t = open_spec(s, path, canonical, content).0;
            &&& t.out == s.out
            &&& s.frames.len() <= t.frames.len() <= s.frames.len() + 1
            &&& t.frames.subrange(0, s.frames.len() as int) == s.frames
        }),
        s.frames.len() > 0 ==> ({
            let u = step_spec(s).0;
            &&& s.frames.len() - 1 <= u.frames.len() <= s.frames.len()
            &&& u.frames.subrange(0, s.frames.len() - 1) == s.frames.subrange(
                0,
                s.frames.len() - 1,
            )
            &&& u.frames.len() == s.frames.len() ==> u.frames.last().canonical
                == s.frames.last().canonical && u.frames.last().path == s.frames.last().path
        }),
{
    let t = open_spec(s, path, canonical, content).0;
    assert(t.frames.subrange(0, s.frames.len() as int) =~= s.frames);
    if s.frames.len() > 0 {
        let u = step_spec(s).0;
        assert(u.frames.subrange(0, s.frames.len() - 1) =~= s.frames.subrange(
            0,
            s.frames.len() - 1,
        ));
    }
}


/// A `;;` comment starts before `k` on the line of `k`.
pub open spec fn in_comment(b: Seq<u8>, k: int) -> bool {
    exists|p: int|
        0 <= p && p + 2 <= k && #[trigger] b[p] == 0x3b && b[p + 1] == 0x3b && forall|q: int|
            p <= q < k ==> b[q] != 0x0a
}

/// Every `;;` that starts before `i` is ended by a line break before `i`.
pub open spec fn comments_closed_before(b: Seq<u8>, i: int) -> bool {
    forall|p: int|
        0 <= p < i && p + 1 < b.len() && #[trigger] b[p] == 0x3b && b[p + 1] == 0x3b ==> exists|
            q: int,
        |
            p <= q < i && #[trigger] b[q] == 0x0a
}

proof fn lemma_line_end_newline(b: Seq<u8>, i: nat)
    ensures
        line_end(b, i) < b.len() ==> line_end(b, i) > 0 && b[line_end(b, i) - 1] == 0x0a,
    decreases b.len() - i,
{
    if i < b.len() && b[i as int] != 0x0a {
        lemma_line_end_newline(b, i + 1);
    }
}

proof fn lemma_scan_commented(b: Seq<u8>, i: nat, run: nat)
    requires
        run <= i <= b.len(),
        comments_closed_before(b, i as int),
        forall|k: int| i <= k && include_at(b, k) ==> in_comment(b, k),
    ensures
        scan_from(b, i, run) == (text_piece(b, run as int, b.len() as int), false),
    decreases b.len() - i,
{
    if i < b.len() {
        if b[i as int] == 0x3b && i + 1 < b.len() && b[i + 1 as int] == 0x3b {
            let e = line_end(b, i);
            lemma_line_end(b, i);
            lemma_line_end_newline(b, i);
            if e < b.len() {
                assert forall|p: int|
                    0 <= p < e && p + 1 < b.len() && #[trigger] b[p] == 0x3b && b[p + 1]
                        == 0x3b implies exists|q: int| p <= q < e && #[trigger] b[q] == 0x0a by {
                    if p < i {
                        let q = choose|q: int| p <= q < i && #[trigger] b[q] == 0x0a;
                        assert(p <= q < e && b[q] == 0x0a);
                    } else {
                        assert(p <= e - 1 < e && b[e - 1] == 0x0a);
                    }
                }
                lemma_scan_commented(b, e, run);
            }
        } else if include_at(b, i as int) {
            assert(in_comment(b, i as int));
            let p = choose|p: int|
                0 <= p && p + 2 <= i && #[trigger] b[p] == 0x3b && b[p + 1] == 0x3b && forall|q: int|
                    p <= q < i ==> b[q] != 0x0a;
            assert(p + 1 < b.len());
            let q = choose|q: int| p <= q < i && #[trigger] b[q] == 0x0a;
            assert(false);
        } else {
            assert forall|p: int|
                0 <= p < i + 1 && p + 1 < b.len() && #[trigger] b[p] == 0x3b && b[p + 1]
                    == 0x3b implies exists|q: int| p <= q < i + 1 && #[trigger] b[q] == 0x0a by {
                if p < i {
                    let q = choose|q: int| p <= q < i && #[trigger] b[q] == 0x0a;
                    assert(p <= q < i + 1 && b[q] == 0x0a);
                }
            }
            lemma_scan_commented(b, i + 1, run);
        }
    }
}

/// A file whose include forms all stand in `;;` comments is copied
/// unchanged: its scan is its whole text, with no include and nothing left
/// open.
pub proof fn law_scan_commented_includes(b: Seq<u8>)
    requires
        forall|k: int| 0 <= k && include_at(b, k) ==> in_comment(b, k),
    ensures
        scan_spec(b) == (text_piece(b, 0, b.len() as int), false),
{
    lemma_scan_commented(b, 0, 0);
}


/// A file whose include forms all stand in `;;` comments is spliced
/// unchanged: after it is opened, the steps copy its whole text to the
/// output, asking for no include and failing nowhere, and close it, so the
/// open files are again those before it.
pub proof fn law_splice_commented_includes(
    s: PreprocessorV,
    path: Seq<char>,
    canonical: Seq<char>,
    b: Seq<u8>,
)
    requires
        !is_open(s, canonical),
        forall|k: int| 0 <= k && include_at(b, k) ==> in_comment(b, k),
    ensures
        ({
            let t = open_spec(s, path, canonical, Ok(b)).0;
            let u = step_spec(t);
            if b.len() > 0 {
                let w = step_spec(u.0);
                &&& u.1 == StepV::Continue
                &&& w.1 == StepV::Continue
                &&& w.0.out == s.out + decode_utf8(b)
                &&& w.0.frames == s.frames
            } else {
                &&& u.1 == StepV::Continue
                &&& u.0.out == s.out
                &&& u.0.frames == s.frames
            }
        }),
{
    law_scan_commented_includes(b);
    let t = open_spec(s, path, canonical, Ok(b)).0;
    assert(t.frames.drop_last() =~= s.frames);
    if b.len() > 0 {
        assert(b.subrange(0, b.len() as int) =~= b);
        let u = step_spec(t).0;
        assert(u.frames.drop_last() =~= s.frames);
    }
}

/// What drives the walk: a step, or opening a file with what reading it gave.
pub enum WalkEvent {
    Step,
    Open { path: Seq<char>, canonical: Seq<char>, content: Result<Seq<u8>, Seq<char>> },
}

/// The walk after the event `e`.
pub open spec fn apply_event(s: PreprocessorV, e: WalkEvent) -> PreprocessorV {
    match e {
        WalkEvent::Step => step_spec(s).0,
        WalkEvent::Open { path, canonical, content } => open_spec(s, path, canonical, content).0,
    }
}

/// The walk after the events `evs`, in order.
pub open spec fn run_events(s: PreprocessorV, evs: Seq<WalkEvent>) -> PreprocessorV
    decreases evs.len(),
{
    if evs.len() == 0 {
        s
    } else {
        apply_event(run_events(s, evs.drop_last()), evs.last())
    }
}

proof fn lemma_events_keep_below(s: PreprocessorV, t: PreprocessorV, evs: Seq<WalkEvent>, k: nat)
    requires
        t.frames.len() > s.frames.len(),
        t.frames.subrange(0, s.frames.len() as int) == s.frames,
        k <= evs.len(),
        forall|j: int| 0 <= j < evs.len() ==> #[trigger] run_events(t, evs.take(j)).frames.len() > s.frames.len(),
    ensures
        run_events(t, evs.take(k as int)).frames.len() >= s.frames.len(),
        run_events(t, evs.take(k as int)).frames.subrange(0, s.frames.len() as int) == s.frames,
    decreases k,
{
    let n = s.frames.len();
    if k == 0 {
        assert(evs.take(0) =~= Seq::<WalkEvent>::empty());
    } else {
        lemma_events_keep_below(s, t, evs, (k - 1) as nat);
        let x = run_events(t, evs.take(k - 1));
        assert(evs.take(k as int).drop_last() =~= evs.take(k - 1));
        assert(evs.take(k as int).last() == evs[k - 1]);
        assert(x.frames.len() > n);
        match evs[k - 1] {
            WalkEvent::Step => {
                law_walk_touches_innermost(x, seq![], seq![], Err(seq![]));
                let y = step_spec(x).0;
                assert(y.frames.subrange(0, n as int) =~= y.frames.subrange(0, x.frames.len() - 1).subrange(0, n as int));
                assert(x.frames.subrange(0, n as int) =~= x.frames.subrange(0, x.frames.len() - 1).subrange(0, n as int));
            },
            WalkEvent::Open { path, canonical, content } => {
                law_walk_touches_innermost(x, path, canonical, content);
                let y = open_spec(x, path, canonical, content).0;
                assert(y.frames.subrange(0, n as int) =~= y.frames.subrange(0, x.frames.len() as int).subrange(0, n as int));
            },
        }
    }
}

/// Once a file opened for an include has been spliced and closed, the open
/// files are again those that were open before it: if it stays open through
/// the events that follow its opening until the last one, and the last one
/// closes it, the open files are those before the include.
pub proof fn law_include_restores_open_files(
    s: PreprocessorV,
    path: Seq<char>,
    canonical: Seq<char>,
    b: Seq<u8>,
    evs: Seq<WalkEvent>,
)
    requires
        !is_open(s, canonical),
        forall|j: int|
            0 <= j < evs.len() ==> #[trigger] run_events(
                open_spec(s, path, canonical, Ok(b)).0,
                evs.take(j),
            ).frames.len() > s.frames.len(),
        run_events(open_spec(s, path, canonical, Ok(b)).0, evs).frames.len() <= s.frames.len(),
    ensures
        run_events(open_spec(s, path, canonical, Ok(b)).0, evs).frames == s.frames,
{
    let t = open_spec(s, path, canonical, Ok(b)).0;
    assert(t.frames.subrange(0, s.frames.len() as int) =~= s.frames);
    lemma_events_keep_below(s, t, evs, evs.len());
    assert(evs.take(evs.len() as int) =~= evs);
    let r = run_events(t, evs);
    assert(r.frames =~= r.frames.subrange(0, s.frames.len() as int));
}


/// An include is resolved against the file it stands in: a step that asks
/// for an include names as `from` the path of the innermost open file, the
/// one whose next piece is that include form, and as `target` the path that
/// form names.
pub proof fn law_include_from_innermost(s: PreprocessorV)
    ensures
        step_spec(s).1 matches StepV::Include { from, target } ==> {
            &&& s.frames.len() > 0
            &&& from == s.frames.last().path
            &&& s.frames.last().next < s.frames.last().pieces.len()
            &&& s.frames.last().pieces[s.frames.last().next as int] == PieceV::Include(target)
        },
{
}

} // verus!
