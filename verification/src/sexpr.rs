//! S-expression reader for kanata configurations: every node carries the
//! byte range (`Span`) of the source text it was read from.
use vstd::prelude::*;
use vstd::string::*;
use vstd::utf8::*;
use crate::text::{at_char_start, lemma_after_ascii, substring};

verus! {

/// A byte range `start..end` of the source.
#[derive(Clone, Copy, Debug)]
pub struct Span {
    pub start: usize,
    pub end: usize,
}

/// A node of the source: an atom with its text, or a parenthesised list.
#[derive(Debug)]
pub enum Sexp {
    Atom { text: String, span: Span },
    List { items: Vec<Sexp>, span: Span },
}

/// What a `Sexp` is: its text or its items, and its byte range.
pub enum SexpV {
    Atom { text: Seq<char>, start: int, end: int },
    List { items: Seq<SexpV>, start: int, end: int },
}

impl SexpV {
    pub open spec fn start(self) -> int {
        match self {
            SexpV::Atom { start, .. } => start,
            SexpV::List { start, .. } => start,
        }
    }

    pub open spec fn end(self) -> int {
        match self {
            SexpV::Atom { end, .. } => end,
            SexpV::List { end, .. } => end,
        }
    }
}

/// What the node `s` is.
pub open spec fn sexp_view(s: Sexp) -> SexpV
    decreases s,
{
    match s {
        Sexp::Atom { text, span } => SexpV::Atom {
            text: text@,
            start: span.start as int,
            end: span.end as int,
        },
        Sexp::List { items, span } => SexpV::List {
            items: Seq::new(
                items.len() as nat,
                |i: int|
                    if 0 <= i < items.len() {
                        sexp_view(items@[i])
                    } else {
                        arbitrary()
                    },
            ),
            start: span.start as int,
            end: span.end as int,
        },
    }
}
impl View for Sexp {
    type V = SexpV;

    open spec fn view(&self) -> SexpV {
        sexp_view(*self)
    }
}

/// The views of a sequence of nodes.
pub open spec fn sexps_view(v: Seq<Sexp>) -> Seq<SexpV> {
    v.map_values(|s: Sexp| s@)
}

/// Why reading failed.
#[derive(Clone, Copy, Debug, PartialEq, Eq, Structural)]
pub enum LexError {
    UnexpectedClose,
    UnexpectedEof,
    Unclosed,
    UnterminatedString,
    UnterminatedRawString,
    /// A `"` inside a raw string stands closer to the end of the source than
    /// the number of `#` that would close the string: the slice that checks
    /// for the closing `#`s runs past the end.
    RawStringOverrun,
}

/// The message that reports a reading error.
pub open spec fn lex_error_message(e: LexError) -> Seq<char> {
    match e {
        LexError::UnexpectedClose => "unexpected )"@,
        LexError::UnexpectedEof => "unexpected eof"@,
        LexError::Unclosed => "unclosed ("@,
        LexError::UnterminatedString => "unterminated string"@,
        LexError::UnterminatedRawString => "unterminated raw string"@,
        LexError::RawStringOverrun => "raw string runs past the end"@,
    }
}

/// A reading error, with its message.
#[derive(Debug)]
pub struct ParseError(pub String);

impl ParseError {
    /// The message shown for this error: `parse error: ` and the reason.
    pub fn to_string(&self) -> (r: String)
        ensures
            r@ == "parse error: "@ + self.0@,
    {
        let mut r = String::new();
        r.append("parse error: ");
        r.append(self.0.as_str());
        r
    }
}

// ---------------------------------------------------------------------------
// The reading, stated over the source bytes
// ---------------------------------------------------------------------------

/// `u8::is_ascii_whitespace`.
pub open spec fn is_ascii_ws(c: u8) -> bool {
    c == 9 || c == 10 || c == 12 || c == 13 || c == 32
}

/// Bytes that end a bare atom: ASCII whitespace and parentheses.
pub open spec fn is_delim(c: u8) -> bool {
    is_ascii_ws(c) || c == 40 || c == 41
}

/// The position of the first `\n` at or after `i`, or the end.
pub open spec fn comment_end(b: Seq<u8>, i: nat) -> nat
    decreases b.len() - i,
{
    if i < b.len() && b[i as int] != 10 {
        comment_end(b, i + 1)
    } else {
        i
    }
}

/// Whether a `;;` comment starts at `i`.
pub open spec fn comment_at(b: Seq<u8>, i: nat) -> bool {
    i + 1 < b.len() && b[i as int] == 59 && b[i + 1 as int] == 59
}

/// The position after the whitespace and `;;` comments that start at `i`.
pub open spec fn skip_blank(b: Seq<u8>, i: nat) -> nat
    decreases b.len() - i,
{
    if i < b.len() {
        if is_ascii_ws(b[i as int]) {
            skip_blank(b, i + 1)
        } else if comment_at(b, i) {
            proof {
                lemma_comment_end(b, i + 1);
            }
            skip_blank(b, comment_end(b, i + 1))
        } else {
            i
        }
    } else {
        i
    }
}

/// The end of the bare atom that starts at `i`.
pub open spec fn bare_end(b: Seq<u8>, i: nat) -> nat
    decreases b.len() - i,
{
    if i < b.len() && !is_delim(b[i as int]) {
        bare_end(b, i + 1)
    } else {
        i
    }
}

/// The number of `#` bytes from `i` on.
pub open spec fn hash_run(b: Seq<u8>, i: nat) -> nat
    decreases b.len() - i,
{
    if i < b.len() && b[i as int] == 35 {
        1 + hash_run(b, i + 1)
    } else {
        0
    }
}

/// For an `r` at `i`: the number of `#` of the raw string that opens there,
/// if `r`, some `#` and a `"` follow.
pub open spec fn raw_prefix(b: Seq<u8>, i: nat) -> Option<nat> {
    let n = hash_run(b, i + 1);
    if i + 1 + n < b.len() && b[(i + 1 + n) as int] == 34 {
        Some(n)
    } else {
        None
    }
}

/// The end of a `"..."` string whose content starts at `i`: a `\` skips the
/// byte after it.
pub open spec fn quoted_end(b: Seq<u8>, i: nat) -> Result<nat, LexError>
    decreases b.len() + 2 - i,
{
    if i >= b.len() {
        Err(LexError::UnterminatedString)
    } else if b[i as int] == 92 {
        quoted_end(b, i + 2)
    } else if b[i as int] == 34 {
        Ok(i + 1)
    } else {
        quoted_end(b, i + 1)
    }
}

/// Whether the `n` bytes from `a` on are all `#`.
pub open spec fn hashes_at(b: Seq<u8>, a: nat, n: nat) -> bool {
    forall|k: int| a <= k < a + n ==> b[k] == 35
}

/// The end of a raw string closed by `"` and `n` times `#`, whose content starts at `i`.
pub open spec fn raw_end(b: Seq<u8>, i: nat, n: nat) -> Result<nat, LexError>
    decreases b.len() - i,
{
    if i >= b.len() {
        Err(LexError::UnterminatedRawString)
    } else if b[i as int] == 34 {
        if i + 1 + n > b.len() {
            Err(LexError::RawStringOverrun)
        } else if hashes_at(b, i + 1, n) {
            Ok(i + 1 + n)
        } else {
            raw_end(b, i + 1, n)
        }
    } else {
        raw_end(b, i + 1, n)
    }
}

/// The end of a string that opens at `start`: a `"..."` string when `raw`
/// is `None`, else a raw string `r#..."...#` with that many `#` (possibly none).
pub open spec fn string_end(b: Seq<u8>, start: nat, raw: Option<nat>) -> Result<nat, LexError> {
    match raw {
        None => quoted_end(b, start + 1),
        Some(n) => raw_end(b, start + n + 2, n),
    }
}

/// The number an optional `usize` holds, as a natural number.
pub open spec fn opt_nat(o: Option<usize>) -> Option<nat> {
    match o {
        Some(n) => Some(n as nat),
        None => None,
    }
}

/// The end of the atom that starts at `i`.
pub open spec fn atom_end(b: Seq<u8>, i: nat) -> Result<nat, LexError> {
    if b[i as int] == 34 {
        string_end(b, i, None)
    } else if b[i as int] == 114 {
        match raw_prefix(b, i) {
            Some(n) => string_end(b, i, Some(n)),
            None => Ok(bare_end(b, i)),
        }
    } else {
        Ok(bare_end(b, i))
    }
}

/// A list that is open while reading: where it starts and the items read so far.
pub struct Frame {
    pub start: int,
    pub items: Seq<SexpV>,
}

/// Adds a finished node to the innermost open list, or to the top level.
pub open spec fn add_item(stack: Seq<Frame>, top: Seq<SexpV>, s: SexpV) -> (Seq<Frame>, Seq<SexpV>) {
    if stack.len() == 0 {
        (stack, top.push(s))
    } else {
        (
            stack.drop_last().push(Frame { start: stack.last().start, items: stack.last().items.push(s) }),
            top,
        )
    }
}

/// Reads the source from `i` on, with the open lists `stack` and the
/// top-level nodes `top` read so far: `(` opens a list, `)` closes the
/// innermost one, anything else is an atom.
pub open spec fn lex_from(b: Seq<u8>, i: nat, stack: Seq<Frame>, top: Seq<SexpV>) -> Result<
    Seq<SexpV>,
    LexError,
>
    decreases b.len() - i,
{
    let p = skip_blank(b, i);
    if p >= b.len() {
        if stack.len() == 0 {
            Ok(top)
        } else {
            Err(LexError::Unclosed)
        }
    } else {
        proof {
            lemma_skip_blank(b, i);
        }
        if b[p as int] == 40 {
            lex_from(b, p + 1, stack.push(Frame { start: p as int, items: seq![] }), top)
        } else if b[p as int] == 41 {
            if stack.len() == 0 {
                Err(LexError::UnexpectedClose)
            } else {
                let f = stack.last();
                let l = SexpV::List { items: f.items, start: f.start, end: p + 1 as int };
                let (st, tp) = add_item(stack.drop_last(), top, l);
                lex_from(b, p + 1, st, tp)
            }
        } else {
            proof {
                lemma_atom_end(b, p);
            }
            match atom_end(b, p) {
                Err(e) => Err(e),
                Ok(e) => {
                    let a = SexpV::Atom {
                        text: decode_utf8(b.subrange(p as int, e as int)),
                        start: p as int,
                        end: e as int,
                    };
                    let (st, tp) = add_item(stack, top, a);
                    lex_from(b, e, st, tp)
                },
            }
        }
    }
}

/// The top-level nodes of the source bytes `b`, or why they cannot be read.
pub open spec fn lex(b: Seq<u8>) -> Result<Seq<SexpV>, LexError> {
    lex_from(b, 0, seq![], seq![])
}

/// Whether reading `s` reaches a raw string whose closing check runs past the end.
pub open spec fn lex_overruns(s: Seq<char>) -> bool {
    lex(encode_utf8(s)) == Err::<Seq<SexpV>, LexError>(LexError::RawStringOverrun)
}

// ---------------------------------------------------------------------------
// Lemmas on the reading
// ---------------------------------------------------------------------------

pub proof fn lemma_comment_end(b: Seq<u8>, i: nat)
    ensures
        i <= comment_end(b, i),
        i <= b.len() ==> comment_end(b, i) <= b.len(),
        i <= b.len() ==> comment_end(b, i) == b.len() || b[comment_end(b, i) as int] == 10,
    decreases b.len() - i,
{
    if i < b.len() && b[i as int] != 10 {
        lemma_comment_end(b, i + 1);
    }
}

pub proof fn lemma_skip_blank(b: Seq<u8>, i: nat)
    ensures
        i <= skip_blank(b, i),
        i <= b.len() ==> skip_blank(b, i) <= b.len(),
        skip_blank(b, skip_blank(b, i)) == skip_blank(b, i),
        skip_blank(b, i) < b.len() ==> !is_ascii_ws(b[skip_blank(b, i) as int]) && !comment_at(
            b,
            skip_blank(b, i),
        ),
    decreases b.len() - i,
{
    if i < b.len() {
        if is_ascii_ws(b[i as int]) {
            lemma_skip_blank(b, i + 1);
        } else if comment_at(b, i) {
            lemma_comment_end(b, i + 1);
            lemma_skip_blank(b, comment_end(b, i + 1));
        }
    }
}

/// Whitespace and comments end where a character starts.
pub proof fn lemma_skip_blank_char_start(b: Seq<u8>, i: nat)
    requires
        valid_utf8(b),
        at_char_start(b, i as int),
    ensures
        at_char_start(b, skip_blank(b, i) as int),
    decreases b.len() - i,
{
    if i < b.len() {
        if is_ascii_ws(b[i as int]) {
            lemma_after_ascii(b, i as int);
            lemma_skip_blank_char_start(b, i + 1);
        } else if comment_at(b, i) {
            lemma_comment_end(b, i + 1);
            lemma_skip_blank_char_start(b, comment_end(b, i + 1));
        }
    }
}

/// Reading from `i` is reading from where the blanks at `i` end.
pub proof fn lemma_lex_from_skip(b: Seq<u8>, i: nat, stack: Seq<Frame>, top: Seq<SexpV>)
    ensures
        lex_from(b, i, stack, top) == lex_from(b, skip_blank(b, i), stack, top),
{
    lemma_skip_blank(b, i);
}

pub proof fn lemma_bare_end(b: Seq<u8>, i: nat)
    ensures
        i <= bare_end(b, i),
        i <= b.len() ==> bare_end(b, i) <= b.len(),
        i <= b.len() ==> bare_end(b, i) == b.len() || is_delim(b[bare_end(b, i) as int]),
        forall|k: int| i <= k < bare_end(b, i) ==> !is_delim(#[trigger] b[k]),
    decreases b.len() - i,
{
    if i < b.len() && !is_delim(b[i as int]) {
        lemma_bare_end(b, i + 1);
    }
}

pub proof fn lemma_quoted_end(b: Seq<u8>, i: nat)
    ensures
        quoted_end(b, i) matches Ok(e) ==> i < e <= b.len() && b[e - 1] == 34,
    decreases b.len() + 2 - i,
{
    if i < b.len() {
        if b[i as int] == 92 {
            lemma_quoted_end(b, i + 2);
        } else if b[i as int] != 34 {
            lemma_quoted_end(b, i + 1);
        }
    }
}

pub proof fn lemma_raw_end(b: Seq<u8>, i: nat, n: nat)
    ensures
        raw_end(b, i, n) matches Ok(e) ==> i < e <= b.len() && (n > 0 ==> b[e - 1] == 35) && (n
            == 0 ==> b[e - 1] == 34),
    decreases b.len() - i,
{
    if i < b.len() {
        if b[i as int] == 34 {
            if i + 1 + n <= b.len() && !hashes_at(b, i + 1, n) {
                lemma_raw_end(b, i + 1, n);
            }
        } else {
            lemma_raw_end(b, i + 1, n);
        }
    }
}

pub proof fn lemma_atom_end(b: Seq<u8>, i: nat)
    requires
        i < b.len(),
        !is_delim(b[i as int]),
    ensures
        atom_end(b, i) matches Ok(e) ==> i < e <= b.len() && (e == b.len() || is_delim(b[e as int])
            || b[e - 1] == 34 || b[e - 1] == 35),
{
    lemma_bare_end(b, i);
    lemma_quoted_end(b, i + 1);
    if b[i as int] == 114 {
        if let Some(n) = raw_prefix(b, i) {
            lemma_raw_end(b, i + n + 2, n);
        }
    }
}

// ---------------------------------------------------------------------------
// Nodes
// ---------------------------------------------------------------------------

/// The view of a list holds the views of its items.
pub proof fn lemma_list_view(s: &Sexp)
    requires
        s is List,
    ensures
        s@ == (SexpV::List {
            items: sexps_view(s->items@),
            start: s->List_span.start as int,
            end: s->List_span.end as int,
        }),
{
    let iv = s->items@;
    let li = s@->List_items;
    assert(li.len() == iv.len());
    assert forall|i: int| 0 <= i < iv.len() implies #[trigger] li[i] == sexps_view(iv)[i] by {
        assert(li[i] == iv[i]@);
    }
    assert(sexps_view(iv) =~= li);
}

impl Clone for Sexp {
    /// A copy of the node and of every node in it.
    fn clone(&self) -> (r: Self)
        ensures
            r@ == self@,
        decreases self,
    {
        match self {
            Sexp::Atom { text, span } => Sexp::Atom { text: text.clone(), span: *span },
            Sexp::List { items, span } => {
                let mut copy: Vec<Sexp> = Vec::new();
                let mut i: usize = 0;
                while i < items.len()
                    invariant
                        self is List,
                        (*self)->items == *items,
                        i <= items@.len(),
                        copy@.len() == i,
                        forall|k: int| 0 <= k < i ==> #[trigger] copy@[k]@ == items@[k]@,
                    decreases items@.len() - i,
                {
                    proof {
                        let v = (*self)->items;
                        assert(v == *items);
                        assert(decreases_to!(*self => v));
                        assert(decreases_to!(v => v@));
                        assert(decreases_to!(v@ => v@[i as int]));
                    }
                    let c = items[i].clone();
                    copy.push(c);
                    i = i + 1;
                }
                let r = Sexp::List { items: copy, span: *span };
                proof {
                    lemma_list_view(self);
                    lemma_list_view(&r);
                    assert(sexps_view(copy@) =~= sexps_view(items@));
                }
                r
            },
        }
    }
}

impl Sexp {
    /// The byte range of the node.
    pub fn span(&self) -> (r: Span)
        ensures
            r.start == self@.start(),
            r.end == self@.end(),
    {
        match self {
            Sexp::Atom { span, .. } => *span,
            Sexp::List { span, .. } => *span,
        }
    }

    /// The text of the node: an atom's own text, a list's source text.
    pub fn as_text(&self, source: &str) -> (r: String)
        requires
            self is List ==> {
                &&& self@.start() <= self@.end()
                &&& at_char_start(source.spec_bytes(), self@.start())
                &&& at_char_start(source.spec_bytes(), self@.end())
            },
        ensures
            r@ == text_of(source.spec_bytes(), self@),
    {
        match self {
            Sexp::Atom { text, .. } => text.clone(),
            Sexp::List { span, .. } => substring(source, span.start, span.end),
        }
    }

    /// An atom's text, or nothing for a list.
    pub fn as_atom(&self) -> (r: Option<&str>)
        ensures
            match self@ {
                SexpV::Atom { text, .. } => r matches Some(t) && t@ == text,
                SexpV::List { .. } => r is None,
            },
    {
        match self {
            Sexp::Atom { text, .. } => Some(text.as_str()),
            Sexp::List { .. } => None,
        }
    }
}

/// What `as_text` gives: an atom's text, or the source text of a list.
pub open spec fn text_of(b: Seq<u8>, s: SexpV) -> Seq<char> {
    match s {
        SexpV::Atom { text, .. } => text,
        SexpV::List { start, end, .. } => decode_utf8(b.subrange(start, end)),
    }
}

/// The node `s` was read from `b`: its range, and those of all nodes in it,
/// lie in `b` and begin and end where characters start.
pub open spec fn sexp_wf(b: Seq<u8>, s: SexpV) -> bool
    decreases s,
{
    match s {
        SexpV::Atom { start, end, .. } => {
            &&& 0 <= start <= end <= b.len()
            &&& at_char_start(b, start)
            &&& at_char_start(b, end)
        },
        SexpV::List { items, start, end } => {
            &&& 0 <= start <= end <= b.len()
            &&& at_char_start(b, start)
            &&& at_char_start(b, end)
            &&& forall|i: int| 0 <= i < items.len() ==> sexp_wf(b, #[trigger] items[i])
        },
    }
}

// ---------------------------------------------------------------------------
// The reader
// ---------------------------------------------------------------------------

fn is_ascii_whitespace(c: u8) -> (r: bool)
    ensures
        r == is_ascii_ws(c),
{
    c == 9 || c == 10 || c == 12 || c == 13 || c == 32
}

fn is_delim_byte(c: u8) -> (r: bool)
    ensures
        r == is_delim(c),
{
    is_ascii_whitespace(c) || c == 40 || c == 41
}

struct Lexer<'a> {
    source: &'a str,
    bytes: &'a [u8],
    pos: usize,
}

impl<'a> Lexer<'a> {
    spec fn bs(&self) -> Seq<u8> {
        self.bytes@
    }

    spec fn wf(&self) -> bool {
        &&& self.bytes@ == self.source.spec_bytes()
        &&& self.bytes@.len() == self.bytes.len()
        &&& self.pos <= self.bytes@.len()
    }

    /// Well formed, and at a position where a character starts.
    spec fn ready(&self) -> bool {
        &&& self.wf()
        &&& at_char_start(self.bytes@, self.pos as int)
    }

    fn peek(&self) -> (r: Option<u8>)
        ensures
            r == (if self.pos < self.bytes@.len() {
                Some(self.bytes@[self.pos as int])
            } else {
                None::<u8>
            }),
    {
        if self.pos < self.bytes.len() {
            Some(self.bytes[self.pos])
        } else {
            None
        }
    }

    fn skip_ws_comments(&mut self)
        requires
            old(self).ready(),
        ensures
            final(self).ready(),
            final(self).source == old(self).source,
            final(self).bytes == old(self).bytes,
            final(self).pos == skip_blank(old(self).bs(), old(self).pos as nat),
    {
        let ghost b = self.bytes@;
        let ghost start = self.pos as nat;
        proof {
            encode_utf8_valid_utf8(self.source@);
        }
        loop
            invariant
                self.ready(),
                self.bytes@ == b,
                self.source == old(self).source,
                self.bytes == old(self).bytes,
                b == old(self).bytes@,
                start == old(self).pos,
                valid_utf8(b),
                skip_blank(b, self.pos as nat) == skip_blank(b, start),
            ensures
                self.ready(),
                self.source == old(self).source,
                self.bytes == old(self).bytes,
                self.pos == skip_blank(b, start),
            decreases b.len() - self.pos,
        {
            match self.peek() {
                Some(c) => {
                    if is_ascii_whitespace(c) {
                        proof {
                            lemma_after_ascii(b, self.pos as int);
                        }
                        self.pos += 1;
                    } else if c == 59 && self.pos + 1 < self.bytes.len() && self.bytes[self.pos + 1]
                        == 59 {
                        let ghost from = self.pos as nat;
                        assert(comment_end(b, from) == comment_end(b, from + 1));
                        loop
                            invariant
                                self.bytes@ == b,
                                self.bytes@.len() == self.bytes.len(),
                                self.source == old(self).source,
                                self.bytes == old(self).bytes,
                                from <= self.pos <= b.len(),
                                comment_end(b, self.pos as nat) == comment_end(b, from),
                            ensures
                                self.bytes@ == b,
                                self.source == old(self).source,
                                self.bytes == old(self).bytes,
                                self.pos == comment_end(b, from),
                            decreases b.len() - self.pos,
                        {
                            match self.peek() {
                                Some(c) => {
                                    if c == 10 {
                                        break;
                                    }
                                    self.pos += 1;
                                },
                                None => {
                                    break;
                                },
                            }
                        }
                        proof {
                            lemma_comment_end(b, from + 1);
                        }
                    } else {
                        break;
                    }
                },
                None => {
                    break;
                },
            }
        }
    }

    /// Reads one node at the current position; `stack` and `top` are the
    /// lists still open around it and the top-level nodes before it.
    fn parse_sexp(&mut self, Ghost(stack): Ghost<Seq<Frame>>, Ghost(top): Ghost<Seq<SexpV>>) -> (r:
        Result<Sexp, LexError>)
        requires
            old(self).ready(),
            skip_blank(old(self).bs(), old(self).pos as nat) < old(self).bs().len(),
            stack.len() > 0 ==> old(self).bs()[skip_blank(
                old(self).bs(),
                old(self).pos as nat,
            ) as int] != 41,
        ensures
            final(self).wf(),
            r is Ok ==> final(self).ready(),
            r is Ok ==> old(self).pos < final(self).pos,
            r matches Ok(s) ==> sexp_wf(old(self).bs(), s@),
            final(self).source == old(self).source,
            final(self).bytes == old(self).bytes,
            match r {
                Ok(s) => {
                    let (st, tp) = add_item(stack, top, s@);
                    lex_from(old(self).bs(), old(self).pos as nat, stack, top) == lex_from(
                        old(self).bs(),
                        final(self).pos as nat,
                        st,
                        tp,
                    )
                },
                Err(e) => lex_from(old(self).bs(), old(self).pos as nat, stack, top) == Err::<
                    Seq<SexpV>,
                    LexError,
                >(e),
            },
        decreases old(self).bs().len() - old(self).pos, 1nat,
    {
        let ghost b = self.bytes@;
        proof {
            lemma_lex_from_skip(b, self.pos as nat, stack, top);
            lemma_skip_blank(b, self.pos as nat);
        }
        self.skip_ws_comments();
        match self.peek() {
            Some(c) if c == 40 => self.parse_list(Ghost(stack), Ghost(top)),
            Some(c) if c == 41 => Err(LexError::UnexpectedClose),
            None => Err(LexError::UnexpectedEof),
            _ => {
                let ghost p = self.pos as nat;
                let r = self.parse_atom();
                proof {
                    lemma_atom_end(b, p);
                }
                r
            },
        }
    }

    /// Reads a list that opens at the current position.
    fn parse_list(&mut self, Ghost(stack): Ghost<Seq<Frame>>, Ghost(top): Ghost<Seq<SexpV>>) -> (r:
        Result<Sexp, LexError>)
        requires
            old(self).ready(),
            old(self).pos < old(self).bs().len(),
            old(self).bs()[old(self).pos as int] == 40,
        ensures
            final(self).wf(),
            r is Ok ==> final(self).ready(),
            r is Ok ==> old(self).pos < final(self).pos,
            r matches Ok(s) ==> sexp_wf(old(self).bs(), s@),
            final(self).source == old(self).source,
            final(self).bytes == old(self).bytes,
            match r {
                Ok(s) => {
                    let (st, tp) = add_item(stack, top, s@);
                    lex_from(old(self).bs(), old(self).pos as nat, stack, top) == lex_from(
                        old(self).bs(),
                        final(self).pos as nat,
                        st,
                        tp,
                    )
                },
                Err(e) => lex_from(old(self).bs(), old(self).pos as nat, stack, top) == Err::<
                    Seq<SexpV>,
                    LexError,
                >(e),
            },
        decreases old(self).bs().len() - old(self).pos, 0nat,
    {
        let ghost b = self.bytes@;
        let start = self.pos;
        proof {
            encode_utf8_valid_utf8(self.source@);
            lemma_after_ascii(b, start as int);
            assert(skip_blank(b, start as nat) == start);
        }
        self.pos += 1;
        let mut items: Vec<Sexp> = Vec::new();
        assert(sexps_view(items@) =~= Seq::<SexpV>::empty());
        loop
            invariant
                self.ready(),
                self.bytes@ == b,
                b == old(self).bytes@,
                valid_utf8(b),
                self.source == old(self).source,
                self.bytes == old(self).bytes,
                start == old(self).pos,
                start < self.pos,
                at_char_start(b, start as int),
                forall|i: int| 0 <= i < items@.len() ==> sexp_wf(b, #[trigger] items@[i]@),
                lex_from(b, start as nat, stack, top) == lex_from(
                    b,
                    self.pos as nat,
                    stack.push(Frame { start: start as int, items: sexps_view(items@) }),
                    top,
                ),
            decreases b.len() - self.pos,
        {
            let ghost st = stack.push(Frame { start: start as int, items: sexps_view(items@) });
            let ghost prev = self.pos as nat;
            proof {
                lemma_lex_from_skip(b, prev, st, top);
                lemma_skip_blank(b, prev);
            }
            self.skip_ws_comments();
            match self.peek() {
                None => {
                    return Err(LexError::Unclosed);
                },
                Some(c) => {
                    if c == 41 {
                        proof {
                            lemma_after_ascii(b, self.pos as int);
                            assert(st.drop_last() =~= stack);
                        }
                        self.pos += 1;
                        let ghost iv = items@;
                        let s = Sexp::List { items, span: Span { start, end: self.pos } };
                        proof {
                            lemma_list_view(&s);
                        }
                        return Ok(s);
                    }
                    let ghost before = self.pos;
                    let s = match self.parse_sexp(Ghost(st), Ghost(top)) {
                        Ok(s) => s,
                        Err(e) => {
                            return Err(e);
                        },
                    };
                    proof {
                        lemma_skip_blank(b, before as nat);
                    }
                    let ghost old_items = items@;
                    items.push(s);
                    proof {
                        assert(sexps_view(items@) =~= sexps_view(old_items).push(s@));
                        assert(st.drop_last() =~= stack);
                        assert(forall|i: int| 0 <= i < old_items.len() ==> items@[i] == old_items[i]);
                    }
                },
            }
        }
    }

    /// Reads an atom at the current position.
    fn parse_atom(&mut self) -> (r: Result<Sexp, LexError>)
        requires
            old(self).ready(),
            old(self).pos < old(self).bs().len(),
            !is_delim(old(self).bs()[old(self).pos as int]),
        ensures
            final(self).wf(),
            r is Ok ==> final(self).ready(),
            r is Ok ==> old(self).pos < final(self).pos,
            r matches Ok(s) ==> sexp_wf(old(self).bs(), s@),
            final(self).source == old(self).source,
            final(self).bytes == old(self).bytes,
            match r {
                Ok(s) => {
                    &&& atom_end(old(self).bs(), old(self).pos as nat) == Ok::<nat, LexError>(
                        final(self).pos as nat,
                    )
                    &&& s@ == (SexpV::Atom {
                        text: decode_utf8(
                            old(self).bs().subrange(old(self).pos as int, final(self).pos as int),
                        ),
                        start: old(self).pos as int,
                        end: final(self).pos as int,
                    })
                },
                Err(e) => atom_end(old(self).bs(), old(self).pos as nat) == Err::<nat, LexError>(e),
            },
    {
        let start = self.pos;
        proof {
            lemma_atom_end(self.bytes@, start as nat);
        }
        match self.peek() {
            Some(c) if c == 34 => self.read_string(start, None),
            Some(c) if c == 114 => {
                if let Some(n) = self.raw_hash_count() {
                    self.read_string(start, Some(n))
                } else {
                    self.read_bare(start)
                }
            },
            _ => self.read_bare(start),
        }
    }

    /// For an `r` at the current position: the number of `#` of the raw
    /// string that opens there, if any.
    fn raw_hash_count(&self) -> (r: Option<usize>)
        requires
            self.ready(),
            self.pos < self.bs().len(),
        ensures
            match raw_prefix(self.bs(), self.pos as nat) {
                Some(n) => r == Some(n as usize),
                None => r is None,
            },
    {
        let ghost b = self.bytes@;
        let mut i = self.pos + 1;
        let mut n: usize = 0;
        while i < self.bytes.len() && self.bytes[i] == 35
            invariant
                self.wf(),
                b == self.bytes@,
                i == self.pos + 1 + n,
                i <= b.len(),
                hash_run(b, self.pos as nat + 1) == n + hash_run(b, i as nat),
            decreases b.len() - i,
        {
            i += 1;
            n += 1;
        }
        if i < self.bytes.len() && self.bytes[i] == 34 {
            Some(n)
        } else {
            None
        }
    }

    /// Reads a string that opens at `start`: `"..."` when `hashes` is zero,
    /// `r#"..."#` with `hashes` times `#` otherwise.
    fn read_string(&mut self, start: usize, raw: Option<usize>) -> (r: Result<Sexp, LexError>)
        requires
            old(self).ready(),
            old(self).pos == start,
            start < old(self).bs().len(),
            old(self).bs()[start as int] == 34 && raw is None || old(self).bs()[start as int]
                == 114 && raw is Some && raw_prefix(old(self).bs(), start as nat) == opt_nat(raw),
        ensures
            final(self).wf(),
            r is Ok ==> final(self).ready(),
            r is Ok ==> old(self).pos < final(self).pos,
            r matches Ok(s) ==> sexp_wf(old(self).bs(), s@),
            final(self).source == old(self).source,
            final(self).bytes == old(self).bytes,
            match r {
                Ok(s) => {
                    &&& string_end(old(self).bs(), start as nat, opt_nat(raw)) == Ok::<
                        nat,
                        LexError,
                    >(final(self).pos as nat)
                    &&& s@ == (SexpV::Atom {
                        text: decode_utf8(
                            old(self).bs().subrange(start as int, final(self).pos as int),
                        ),
                        start: start as int,
                        end: final(self).pos as int,
                    })
                },
                Err(e) => string_end(old(self).bs(), start as nat, opt_nat(raw)) == Err::<
                    nat,
                    LexError,
                >(e),
            },
    {
        let ghost b = self.bytes@;
        proof {
            encode_utf8_valid_utf8(self.source@);
        }
        let len = self.bytes.len();
        if raw.is_none() {
            self.pos += 1;
            loop
                invariant_except_break
                    quoted_end(b, self.pos as nat) == quoted_end(b, start as nat + 1),
                invariant
                    b == self.bytes@,
                    b == old(self).bytes@,
                    self.source == old(self).source,
                    self.bytes == old(self).bytes,
                    b == self.source.spec_bytes(),
                    valid_utf8(b),
                    len == b.len(),
                    raw is None,
                    start < self.pos <= len,
                ensures
                    quoted_end(b, start as nat + 1) == Ok::<nat, LexError>(self.pos as nat),
                    at_char_start(b, self.pos as int),
                decreases len - self.pos,
            {
                match self.peek() {
                    None => {
                        return Err(LexError::UnterminatedString);
                    },
                    Some(c) => {
                        if c == 92 {
                            if len - self.pos <= 2 {
                                assert(quoted_end(b, self.pos as nat + 2) == Err::<nat, LexError>(
                                    LexError::UnterminatedString,
                                ));
                                return Err(LexError::UnterminatedString);
                            }
                            self.pos += 2;
                        } else if c == 34 {
                            proof {
                                lemma_after_ascii(b, self.pos as int);
                            }
                            self.pos += 1;
                            break ;
                        } else {
                            self.pos += 1;
                        }
                    },
                }
            }
        } else {
            let hashes = raw.unwrap();
            proof {
                let n = hash_run(b, start as nat + 1);
                assert(start + 1 + n < b.len());
            }
            self.pos += 1 + hashes + 1;
            loop
                invariant_except_break
                    raw_end(b, self.pos as nat, hashes as nat) == raw_end(
                        b,
                        (start + hashes + 2) as nat,
                        hashes as nat,
                    ),
                invariant
                    b == self.bytes@,
                    b == old(self).bytes@,
                    self.source == old(self).source,
                    self.bytes == old(self).bytes,
                    b == self.source.spec_bytes(),
                    valid_utf8(b),
                    len == b.len(),
                    raw == Some(hashes),
                    start < self.pos <= len,
                ensures
                    raw_end(b, (start + hashes + 2) as nat, hashes as nat) == Ok::<nat, LexError>(
                        self.pos as nat,
                    ),
                    at_char_start(b, self.pos as int),
                decreases len - self.pos,
            {
                match self.peek() {
                    None => {
                        return Err(LexError::UnterminatedRawString);
                    },
                    Some(c) => {
                        if c == 34 {
                            if hashes > len - self.pos - 1 {
                                return Err(LexError::RawStringOverrun);
                            }
                            let mut k: usize = 0;
                            let mut all = true;
                            while k < hashes
                                invariant
                                    b == self.bytes@,
                                    len == b.len(),
                                    self.pos + 1 + hashes <= len,
                                    k <= hashes,
                                    all == (forall|j: int|
                                        self.pos + 1 <= j < self.pos + 1 + k ==> b[j] == 35),
                                decreases hashes - k,
                            {
                                if self.bytes[self.pos + 1 + k] != 35 {
                                    all = false;
                                }
                                k += 1;
                            }
                            if all {
                                proof {
                                    lemma_after_ascii(b, self.pos + hashes);
                                }
                                self.pos += 1 + hashes;
                                break ;
                            }
                            self.pos += 1;
                        } else {
                            self.pos += 1;
                        }
                    },
                }
            }
        }
        let text = substring(self.source, start, self.pos);
        Ok(Sexp::Atom { text, span: Span { start, end: self.pos } })
    }

    /// Reads a bare atom that starts at `start`.
    fn read_bare(&mut self, start: usize) -> (r: Result<Sexp, LexError>)
        requires
            old(self).ready(),
            old(self).pos == start,
            start < old(self).bs().len(),
        ensures
            final(self).ready(),
            final(self).source == old(self).source,
            final(self).bytes == old(self).bytes,
            final(self).pos == bare_end(old(self).bs(), start as nat),
            r matches Ok(s) ==> sexp_wf(old(self).bs(), s@),
            r matches Ok(s) && s@ == (SexpV::Atom {
                text: decode_utf8(old(self).bs().subrange(start as int, final(self).pos as int)),
                start: start as int,
                end: final(self).pos as int,
            }),
    {
        let ghost b = self.bytes@;
        while self.pos < self.bytes.len() && !is_delim_byte(self.bytes[self.pos])
            invariant
                b == self.bytes@,
                self.source == old(self).source,
                self.bytes == old(self).bytes,
                start <= self.pos <= b.len(),
                bare_end(b, self.pos as nat) == bare_end(b, start as nat),
            decreases b.len() - self.pos,
        {
            self.pos += 1;
        }
        let text = substring(self.source, start, self.pos);
        Ok(Sexp::Atom { text, span: Span { start, end: self.pos } })
    }
}

/// Reads all top-level nodes of `source`; a raw string whose closing check
/// runs past the end is reported as `RawStringOverrun`.
pub fn lex_source(source: &str) -> (r: Result<Vec<Sexp>, LexError>)
    ensures
        r matches Ok(v) ==> forall|i: int|
            0 <= i < v@.len() ==> sexp_wf(source.spec_bytes(), #[trigger] v@[i]@),
        match r {
            Ok(v) => lex(source.spec_bytes()) == Ok::<Seq<SexpV>, LexError>(sexps_view(v@)),
            Err(e) => lex(source.spec_bytes()) == Err::<Seq<SexpV>, LexError>(e),
        },
{
    let mut p = Lexer { source, bytes: source.as_bytes(), pos: 0 };
    let ghost b = p.bytes@;
    proof {
        encode_utf8_valid_utf8(source@);
        is_char_boundary_start_end_of_seq(b);
        if b.len() > 0 {
            is_char_boundary_iff_not_is_continuation_byte(b, 0);
        }
        assert(p.bytes@.len() == p.bytes.len());
    }
    let mut items: Vec<Sexp> = Vec::new();
    assert(sexps_view(items@) =~= Seq::<SexpV>::empty());
    loop
        invariant_except_break
            lex(b) == lex_from(b, p.pos as nat, seq![], sexps_view(items@)),
        invariant
            p.ready(),
            p.bytes@ == b,
            b == source.spec_bytes(),
            p.source == source,
            forall|i: int| 0 <= i < items@.len() ==> sexp_wf(b, #[trigger] items@[i]@),
        ensures
            lex(b) == Ok::<Seq<SexpV>, LexError>(sexps_view(items@)),
        decreases b.len() - p.pos,
    {
        let ghost prev = p.pos as nat;
        proof {
            lemma_lex_from_skip(b, prev, seq![], sexps_view(items@));
            lemma_skip_blank(b, prev);
        }
        p.skip_ws_comments();
        if p.pos >= p.bytes.len() {
            break ;
        }
        let ghost no_frames: Seq<Frame> = Seq::empty();
        match p.parse_sexp(Ghost(no_frames), Ghost(sexps_view(items@))) {
            Ok(s) => {
                let ghost old_items = items@;
                items.push(s);
                assert(sexps_view(items@) =~= sexps_view(old_items).push(s@));
                assert(forall|i: int| 0 <= i < old_items.len() ==> items@[i] == old_items[i]);
            },
            Err(e) => {
                return Err(e);
            },
        }
    }
    Ok(items)
}

/// Whether reading `source` reaches a raw string whose closing check runs
/// past the end of the source.
pub fn raw_string_overruns(source: &str) -> (r: bool)
    ensures
        r == lex_overruns(source@),
{
    match lex_source(source) {
        Err(LexError::RawStringOverrun) => true,
        _ => false,
    }
}

fn error_message(e: LexError) -> (r: String)
    ensures
        r@ == lex_error_message(e),
{
    match e {
        LexError::UnexpectedClose => "unexpected )".to_owned(),
        LexError::UnexpectedEof => "unexpected eof".to_owned(),
        LexError::Unclosed => "unclosed (".to_owned(),
        LexError::UnterminatedString => "unterminated string".to_owned(),
        LexError::UnterminatedRawString => "unterminated raw string".to_owned(),
        LexError::RawStringOverrun => "raw string runs past the end".to_owned(),
    }
}

/// Reads the top-level nodes of `source`.
pub fn parse(source: &str) -> (r: Result<Vec<Sexp>, ParseError>)
    requires
        !lex_overruns(source@),
    ensures
        r matches Ok(v) ==> forall|i: int|
            0 <= i < v@.len() ==> sexp_wf(source.spec_bytes(), #[trigger] v@[i]@),
        match r {
            Ok(v) => lex(source.spec_bytes()) == Ok::<Seq<SexpV>, LexError>(sexps_view(v@)),
            Err(e) => exists|k: LexError|
                lex(source.spec_bytes()) == Err::<Seq<SexpV>, LexError>(k) && e.0@
                    == lex_error_message(k),
        },
{
    match lex_source(source) {
        Ok(v) => Ok(v),
        Err(e) => Err(ParseError(error_message(e))),
    }
}


// ---------------------------------------------------------------------------
// What the reader guarantees
// ---------------------------------------------------------------------------

/// The text of `s`, and of every node in it, is the source text of its range.
pub open spec fn texts_match(b: Seq<u8>, s: SexpV) -> bool
    decreases s,
{
    &&& text_of(b, s) == decode_utf8(b.subrange(s.start(), s.end()))
    &&& match s {
        SexpV::Atom { .. } => true,
        SexpV::List { items, .. } => forall|k: int|
            0 <= k < items.len() ==> texts_match(b, #[trigger] items[k]),
    }
}

/// Every node read so far, finished or in an open list, shows its source text.
pub open spec fn read_so_far_match(b: Seq<u8>, stack: Seq<Frame>, top: Seq<SexpV>) -> bool {
    &&& forall|k: int| 0 <= k < top.len() ==> texts_match(b, #[trigger] top[k])
    &&& forall|f: int, k: int|
        0 <= f < stack.len() && 0 <= k < stack[f].items.len() ==> texts_match(
            b,
            #[trigger] stack[f].items[k],
        )
}

proof fn lemma_add_item_match(b: Seq<u8>, stack: Seq<Frame>, top: Seq<SexpV>, s: SexpV)
    requires
        read_so_far_match(b, stack, top),
        texts_match(b, s),
    ensures
        read_so_far_match(b, add_item(stack, top, s).0, add_item(stack, top, s).1),
{
    let (st, tp) = add_item(stack, top, s);
    if stack.len() == 0 {
        assert forall|k: int| 0 <= k < tp.len() implies texts_match(b, #[trigger] tp[k]) by {
            if k < top.len() {
                assert(tp[k] == top[k]);
            }
        }
    } else {
        assert forall|f: int, k: int|
            0 <= f < st.len() && 0 <= k < st[f].items.len() implies texts_match(
            b,
            #[trigger] st[f].items[k],
        ) by {
            if f < stack.len() - 1 {
                assert(st[f] == stack[f]);
            } else if k < stack.last().items.len() {
                assert(st[f].items[k] == stack[stack.len() - 1].items[k]);
            }
        }
    }
}

proof fn lemma_lex_from_match(b: Seq<u8>, i: nat, stack: Seq<Frame>, top: Seq<SexpV>)
    requires
        read_so_far_match(b, stack, top),
    ensures
        lex_from(b, i, stack, top) matches Ok(r) ==> forall|k: int|
            0 <= k < r.len() ==> texts_match(b, #[trigger] r[k]),
    decreases b.len() - i,
{
    let p = skip_blank(b, i);
    if p < b.len() {
        lemma_skip_blank(b, i);
        if b[p as int] == 40 {
            let st = stack.push(Frame { start: p as int, items: seq![] });
            assert forall|f: int, k: int|
                0 <= f < st.len() && 0 <= k < st[f].items.len() implies texts_match(
                b,
                #[trigger] st[f].items[k],
            ) by {
                assert(f < stack.len());
                assert(st[f] == stack[f]);
            }
            lemma_lex_from_match(b, p + 1, st, top);
        } else if b[p as int] == 41 {
            if stack.len() > 0 {
                let f = stack.last();
                let l = SexpV::List { items: f.items, start: f.start, end: p + 1 as int };
                assert(texts_match(b, l)) by {
                    assert forall|k: int| 0 <= k < f.items.len() implies texts_match(
                        b,
                        #[trigger] f.items[k],
                    ) by {
                        assert(stack[stack.len() - 1].items[k] == f.items[k]);
                    }
                }
                let rest = stack.drop_last();
                assert(read_so_far_match(b, rest, top)) by {
                    assert forall|g: int, k: int|
                        0 <= g < rest.len() && 0 <= k < rest[g].items.len() implies texts_match(
                        b,
                        #[trigger] rest[g].items[k],
                    ) by {
                        assert(rest[g] == stack[g]);
                    }
                }
                lemma_add_item_match(b, rest, top, l);
                let (st, tp) = add_item(rest, top, l);
                lemma_lex_from_match(b, p + 1, st, tp);
            }
        } else {
            lemma_atom_end(b, p);
            if let Ok(e) = atom_end(b, p) {
                let a = SexpV::Atom {
                    text: decode_utf8(b.subrange(p as int, e as int)),
                    start: p as int,
                    end: e as int,
                };
                lemma_add_item_match(b, stack, top, a);
                let (st, tp) = add_item(stack, top, a);
                lemma_lex_from_match(b, e, st, tp);
            }
        }
    }
}

/// What the reader gives shows the source: the text of every node, at any
/// depth, is the source text of its range (an atom's text is its slice, and
/// `as_text` gives a list its slice).
pub proof fn law_read_texts_match_source(b: Seq<u8>)
    ensures
        lex(b) matches Ok(r) ==> forall|k: int| 0 <= k < r.len() ==> texts_match(b, #[trigger] r[k]),
{
    lemma_lex_from_match(b, 0, seq![], seq![]);
}


/// The ranges of `items` lie within `lo..hi`, each after the one before.
pub open spec fn ranges_in_order(items: Seq<SexpV>, lo: int, hi: int) -> bool {
    &&& forall|k: int|
        0 <= k < items.len() ==> lo <= #[trigger] items[k].start() && items[k].start()
            <= items[k].end() <= hi
    &&& forall|j: int, k: int|
        0 <= j < k < items.len() ==> #[trigger] items[j].end() <= #[trigger] items[k].start()
}

/// The items of `s`, and of every list in it, lie inside its parentheses,
/// each after the one before.
pub open spec fn ranges_nest(s: SexpV) -> bool
    decreases s,
{
    match s {
        SexpV::Atom { .. } => true,
        SexpV::List { items, start, end } => {
            &&& ranges_in_order(items, start + 1, end - 1)
            &&& forall|k: int| 0 <= k < items.len() ==> ranges_nest(#[trigger] items[k])
        },
    }
}

/// Where the items of the open list `f` must end: where the next open list
/// starts, or at `i` for the innermost one.
pub open spec fn frame_bound(stack: Seq<Frame>, f: int, i: int) -> int {
    if f + 1 < stack.len() {
        stack[f + 1].start
    } else {
        i
    }
}

/// Where the finished top-level nodes must end.
pub open spec fn top_bound(stack: Seq<Frame>, i: int) -> int {
    if stack.len() > 0 {
        stack[0].start
    } else {
        i
    }
}

/// The nodes read so far before `i` nest and follow one another.
pub open spec fn read_so_far_nest(stack: Seq<Frame>, top: Seq<SexpV>, i: int) -> bool {
    &&& ranges_in_order(top, 0, top_bound(stack, i))
    &&& forall|k: int| 0 <= k < top.len() ==> ranges_nest(#[trigger] top[k])
    &&& forall|f: int|
        0 <= f < stack.len() ==> 0 <= #[trigger] stack[f].start && stack[f].start + 1
            <= frame_bound(stack, f, i) && ranges_in_order(
            stack[f].items,
            stack[f].start + 1,
            frame_bound(stack, f, i),
        )
    &&& forall|f: int, k: int|
        0 <= f < stack.len() && 0 <= k < stack[f].items.len() ==> ranges_nest(
            #[trigger] stack[f].items[k],
        )
}

proof fn lemma_in_order_push(items: Seq<SexpV>, lo: int, hi: int, s: SexpV, hi2: int)
    requires
        ranges_in_order(items, lo, hi),
        hi <= s.start(),
        lo <= s.start() <= s.end() <= hi2,
    ensures
        ranges_in_order(items.push(s), lo, hi2),
{
    let t = items.push(s);
    assert forall|k: int| 0 <= k < t.len() implies lo <= #[trigger] t[k].start() && t[k].start()
        <= t[k].end() <= hi2 by {
        if k < items.len() {
            assert(t[k] == items[k]);
        }
    }
    assert forall|j: int, k: int| 0 <= j < k < t.len() implies #[trigger] t[j].end()
        <= #[trigger] t[k].start() by {
        assert(t[j] == items[j]);
        if k < items.len() {
            assert(t[k] == items[k]);
        } else {
            assert(t[k] == s);
            assert(lo <= items[j].start());
            assert(items[j].end() <= hi);
        }
    }
}

proof fn lemma_nest_later(stack: Seq<Frame>, top: Seq<SexpV>, i: int, i2: int)
    requires
        read_so_far_nest(stack, top, i),
        i <= i2,
    ensures
        read_so_far_nest(stack, top, i2),
{
    assert forall|f: int| 0 <= f < stack.len() implies 0 <= #[trigger] stack[f].start
        && stack[f].start + 1 <= frame_bound(stack, f, i2) && ranges_in_order(
        stack[f].items,
        stack[f].start + 1,
        frame_bound(stack, f, i2),
    ) by {
        assert(ranges_in_order(stack[f].items, stack[f].start + 1, frame_bound(stack, f, i)));
    }
}

proof fn lemma_add_item_nest(stack: Seq<Frame>, top: Seq<SexpV>, i: int, s: SexpV, i2: int)
    requires
        read_so_far_nest(stack, top, i),
        ranges_nest(s),
        0 <= i <= s.start() <= s.end() <= i2,
    ensures
        read_so_far_nest(add_item(stack, top, s).0, add_item(stack, top, s).1, i2),
{
    let (st, tp) = add_item(stack, top, s);
    if stack.len() == 0 {
        lemma_in_order_push(top, 0, i, s, i2);
        assert forall|k: int| 0 <= k < tp.len() implies ranges_nest(#[trigger] tp[k]) by {
            if k < top.len() {
                assert(tp[k] == top[k]);
            }
        }
    } else {
        let m = stack.len() - 1;
        let g = stack[m];
        assert(ranges_in_order(g.items, g.start + 1, frame_bound(stack, m, i)));
        lemma_in_order_push(g.items, g.start + 1, i, s, i2);
        assert(st.len() == stack.len());
        assert forall|f: int| 0 <= f < st.len() implies 0 <= #[trigger] st[f].start && st[f].start
            + 1 <= frame_bound(st, f, i2) && ranges_in_order(
            st[f].items,
            st[f].start + 1,
            frame_bound(st, f, i2),
        ) by {
            if f < m {
                assert(st[f] == stack[f]);
                assert(st[f + 1].start == stack[f + 1].start);
                assert(frame_bound(st, f, i2) == frame_bound(stack, f, i));
            } else {
                assert(st[f].items == g.items.push(s));
            }
        }
        assert forall|f: int, k: int| 0 <= f < st.len() && 0 <= k < st[f].items.len() implies ranges_nest(
            #[trigger] st[f].items[k],
        ) by {
            if f < m {
                assert(st[f] == stack[f]);
            } else if k < g.items.len() {
                assert(st[f].items[k] == stack[m].items[k]);
            }
        }
        assert(top_bound(st, i2) == top_bound(stack, i));
    }
}

proof fn lemma_lex_from_nest(b: Seq<u8>, i: nat, stack: Seq<Frame>, top: Seq<SexpV>)
    requires
        read_so_far_nest(stack, top, i as int),
        i <= b.len(),
    ensures
        lex_from(b, i, stack, top) matches Ok(r) ==> ranges_in_order(r, 0, b.len() as int) && forall|
            k: int,
        |
            0 <= k < r.len() ==> ranges_nest(#[trigger] r[k]),
    decreases b.len() - i,
{
    let p = skip_blank(b, i);
    lemma_skip_blank(b, i);
    lemma_nest_later(stack, top, i as int, p as int);
    if p >= b.len() {
        if stack.len() == 0 {
            assert(ranges_in_order(top, 0, p as int));
        }
    } else {
        if b[p as int] == 40 {
            let st = stack.push(Frame { start: p as int, items: seq![] });
            lemma_nest_later(stack, top, p as int, p + 1 as int);
            assert forall|f: int| 0 <= f < st.len() implies 0 <= #[trigger] st[f].start
                && st[f].start + 1 <= frame_bound(st, f, p + 1 as int) && ranges_in_order(
                st[f].items,
                st[f].start + 1,
                frame_bound(st, f, p + 1 as int),
            ) by {
                if f < stack.len() {
                    assert(st[f] == stack[f]);
                    assert(ranges_in_order(
                        stack[f].items,
                        stack[f].start + 1,
                        frame_bound(stack, f, p as int),
                    ));
                    if f + 1 < stack.len() {
                        assert(st[f + 1] == stack[f + 1]);
                    }
                }
            }
            assert forall|f: int, k: int| 0 <= f < st.len() && 0 <= k < st[f].items.len() implies ranges_nest(
                #[trigger] st[f].items[k],
            ) by {
                assert(f < stack.len());
                assert(st[f] == stack[f]);
            }
            if stack.len() == 0 {
                assert(ranges_in_order(top, 0, top_bound(stack, p as int)));
            } else {
                assert(st[0] == stack[0]);
            }
            lemma_lex_from_nest(b, p + 1, st, top);
        } else if b[p as int] == 41 {
            if stack.len() > 0 {
                let m = stack.len() - 1;
                let f = stack[m];
                let l = SexpV::List { items: f.items, start: f.start, end: p + 1 as int };
                let rest = stack.drop_last();
                assert(ranges_in_order(f.items, f.start + 1, frame_bound(stack, m, p as int)));
                assert(ranges_nest(l)) by {
                    assert forall|k: int| 0 <= k < f.items.len() implies ranges_nest(
                        #[trigger] f.items[k],
                    ) by {
                        assert(stack[m].items[k] == f.items[k]);
                    }
                }
                let ri = f.start;
                assert(read_so_far_nest(rest, top, ri)) by {
                    assert forall|g: int| 0 <= g < rest.len() implies 0 <= #[trigger] rest[g].start
                        && rest[g].start + 1 <= frame_bound(rest, g, ri) && ranges_in_order(
                        rest[g].items,
                        rest[g].start + 1,
                        frame_bound(rest, g, ri),
                    ) by {
                        assert(rest[g] == stack[g]);
                        assert(frame_bound(rest, g, ri) == frame_bound(stack, g, p as int));
                    }
                    assert forall|g: int, k: int|
                        0 <= g < rest.len() && 0 <= k < rest[g].items.len() implies ranges_nest(
                        #[trigger] rest[g].items[k],
                    ) by {
                        assert(rest[g] == stack[g]);
                    }
                    assert(top_bound(rest, ri) == top_bound(stack, p as int));
                }
                lemma_add_item_nest(rest, top, ri, l, p + 1 as int);
                let (st, tp) = add_item(rest, top, l);
                lemma_lex_from_nest(b, p + 1, st, tp);
            }
        } else {
            lemma_atom_end(b, p);
            if let Ok(e) = atom_end(b, p) {
                let a = SexpV::Atom {
                    text: decode_utf8(b.subrange(p as int, e as int)),
                    start: p as int,
                    end: e as int,
                };
                lemma_add_item_nest(stack, top, p as int, a, e as int);
                let (st, tp) = add_item(stack, top, a);
                lemma_lex_from_nest(b, e, st, tp);
            }
        }
    }
}

/// The nodes the reader gives lie in the source one after the other, and
/// the items of each list lie inside its parentheses, one after the other:
/// ranges nest and never overlap.
pub proof fn law_read_ranges_nest(b: Seq<u8>)
    ensures
        lex(b) matches Ok(r) ==> ranges_in_order(r, 0, b.len() as int) && forall|k: int|
            0 <= k < r.len() ==> ranges_nest(#[trigger] r[k]),
{
    lemma_lex_from_nest(b, 0, seq![], seq![]);
}


/// Each list in `s`, `s` included, starts at its `(` and ends just after
/// its `)`; each atom is not empty.
pub open spec fn delimited(b: Seq<u8>, s: SexpV) -> bool
    decreases s,
{
    match s {
        SexpV::Atom { start, end, .. } => start < end,
        SexpV::List { items, start, end } => {
            &&& 0 <= start < end <= b.len()
            &&& b[start] == 40
            &&& b[end - 1] == 41
            &&& forall|k: int| 0 <= k < items.len() ==> delimited(b, #[trigger] items[k])
        },
    }
}

/// Every node read so far is delimited, and every open list starts at a `(`.
pub open spec fn read_so_far_delimited(b: Seq<u8>, stack: Seq<Frame>, top: Seq<SexpV>, i: int) -> bool {
    &&& forall|k: int| 0 <= k < top.len() ==> delimited(b, #[trigger] top[k])
    &&& forall|f: int| 0 <= f < stack.len() ==> 0 <= #[trigger] stack[f].start < i && stack[f].start < b.len() && b[stack[f].start] == 40
    &&& forall|f: int, k: int|
        0 <= f < stack.len() && 0 <= k < stack[f].items.len() ==> delimited(
            b,
            #[trigger] stack[f].items[k],
        )
}

proof fn lemma_add_item_delimited(b: Seq<u8>, stack: Seq<Frame>, top: Seq<SexpV>, s: SexpV, i: int, i2: int)
    requires
        read_so_far_delimited(b, stack, top, i),
        delimited(b, s),
        i <= i2,
    ensures
        read_so_far_delimited(b, add_item(stack, top, s).0, add_item(stack, top, s).1, i2),
{
    let (st, tp) = add_item(stack, top, s);
    if stack.len() == 0 {
        assert forall|k: int| 0 <= k < tp.len() implies delimited(b, #[trigger] tp[k]) by {
            if k < top.len() {
                assert(tp[k] == top[k]);
            }
        }
    } else {
        assert forall|f: int| 0 <= f < st.len() implies 0 <= #[trigger] st[f].start < i2 && st[f].start < b.len() && b[st[f].start] == 40 by {
            if f < stack.len() - 1 {
                assert(st[f] == stack[f]);
            } else {
                assert(st[f].start == stack[stack.len() - 1].start);
            }
        }
        assert forall|f: int, k: int|
            0 <= f < st.len() && 0 <= k < st[f].items.len() implies delimited(
            b,
            #[trigger] st[f].items[k],
        ) by {
            if f < stack.len() - 1 {
                assert(st[f] == stack[f]);
            } else if k < stack.last().items.len() {
                assert(st[f].items[k] == stack[stack.len() - 1].items[k]);
            }
        }
    }
}

proof fn lemma_lex_from_delimited(b: Seq<u8>, i: nat, stack: Seq<Frame>, top: Seq<SexpV>)
    requires
        read_so_far_delimited(b, stack, top, i as int),
    ensures
        lex_from(b, i, stack, top) matches Ok(r) ==> forall|k: int|
            0 <= k < r.len() ==> delimited(b, #[trigger] r[k]),
    decreases b.len() - i,
{
    let p = skip_blank(b, i);
    if p < b.len() {
        lemma_skip_blank(b, i);
        if b[p as int] == 40 {
            let st = stack.push(Frame { start: p as int, items: seq![] });
            assert forall|f: int| 0 <= f < st.len() implies 0 <= #[trigger] st[f].start < p + 1 && st[f].start < b.len() && b[st[f].start] == 40 by {
                if f < stack.len() {
                    assert(st[f] == stack[f]);
                }
            }
            assert forall|f: int, k: int|
                0 <= f < st.len() && 0 <= k < st[f].items.len() implies delimited(
                b,
                #[trigger] st[f].items[k],
            ) by {
                assert(f < stack.len());
                assert(st[f] == stack[f]);
            }
            lemma_lex_from_delimited(b, p + 1, st, top);
        } else if b[p as int] == 41 {
            if stack.len() > 0 {
                let m = stack.len() - 1;
                let f = stack[m];
                let l = SexpV::List { items: f.items, start: f.start, end: p + 1 as int };
                assert(0 <= f.start < i && b[f.start] == 40);
                assert(delimited(b, l)) by {
                    assert forall|k: int| 0 <= k < f.items.len() implies delimited(
                        b,
                        #[trigger] f.items[k],
                    ) by {
                        assert(stack[m].items[k] == f.items[k]);
                    }
                }
                let rest = stack.drop_last();
                assert(read_so_far_delimited(b, rest, top, i as int)) by {
                    assert forall|g: int| 0 <= g < rest.len() implies 0 <= #[trigger] rest[g].start < i && rest[g].start < b.len() && b[rest[g].start] == 40 by {
                        assert(rest[g] == stack[g]);
                    }
                    assert forall|g: int, k: int|
                        0 <= g < rest.len() && 0 <= k < rest[g].items.len() implies delimited(
                        b,
                        #[trigger] rest[g].items[k],
                    ) by {
                        assert(rest[g] == stack[g]);
                    }
                }
                lemma_add_item_delimited(b, rest, top, l, i as int, p + 1 as int);
                let (st, tp) = add_item(rest, top, l);
                lemma_lex_from_delimited(b, p + 1, st, tp);
            }
        } else {
            lemma_atom_end(b, p);
            if let Ok(e) = atom_end(b, p) {
                let a = SexpV::Atom {
                    text: decode_utf8(b.subrange(p as int, e as int)),
                    start: p as int,
                    end: e as int,
                };
                lemma_add_item_delimited(b, stack, top, a, i as int, e as int);
                let (st, tp) = add_item(stack, top, a);
                lemma_lex_from_delimited(b, e, st, tp);
            }
        }
    }
}

/// Every list the reader gives starts at its `(` and ends just after the
/// `)` that closes it (the matching one, since lists nest), and no atom is
/// empty.
pub proof fn law_read_lists_delimited(b: Seq<u8>)
    ensures
        lex(b) matches Ok(r) ==> forall|k: int| 0 <= k < r.len() ==> delimited(b, #[trigger] r[k]),
{
    lemma_lex_from_delimited(b, 0, seq![], seq![]);
}


/// A lone `;` (one not followed by another `;`) opens no comment: reading
/// does not skip it, and it starts a bare atom that takes at least that byte.
pub proof fn law_lone_semicolon_is_atom(b: Seq<u8>, i: nat)
    requires
        i < b.len(),
        b[i as int] == 59,
        !(i + 1 < b.len() && b[i + 1 as int] == 59),
    ensures
        skip_blank(b, i) == i,
        atom_end(b, i) == Ok::<nat, LexError>(bare_end(b, i)),
        i < bare_end(b, i),
{
    assert(!is_ascii_ws(b[i as int]));
    assert(!is_delim(b[i as int]));
    lemma_bare_end(b, i + 1);
}

/// `;;` opens a comment that runs to the end of its line: reading skips
/// every byte from the `;;` up to the line break, and goes on from there.
pub proof fn law_double_semicolon_comment(b: Seq<u8>, i: nat)
    requires
        i + 1 < b.len(),
        b[i as int] == 59,
        b[i + 1 as int] == 59,
    ensures
        skip_blank(b, i) == skip_blank(b, comment_end(b, i + 1)),
        i < comment_end(b, i + 1) <= b.len(),
        forall|j: int| i <= j < comment_end(b, i + 1) ==> b[j] != 10,
        comment_end(b, i + 1) < b.len() ==> b[comment_end(b, i + 1) as int] == 10,
{
    lemma_comment_end_line(b, i + 1);
}

proof fn lemma_comment_end_line(b: Seq<u8>, i: nat)
    requires
        i <= b.len(),
    ensures
        i <= comment_end(b, i) <= b.len(),
        forall|j: int| i <= j < comment_end(b, i) ==> b[j] != 10,
        comment_end(b, i) < b.len() ==> b[comment_end(b, i) as int] == 10,
    decreases b.len() - i,
{
    if i < b.len() && b[i as int] != 10 {
        lemma_comment_end_line(b, i + 1);
    }
}

} // verus!
