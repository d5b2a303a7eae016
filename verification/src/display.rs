//! How a key token is shown: its label, tooltip and CSS classes.
use vstd::prelude::*;
use vstd::string::*;
use vstd::utf8::*;
use crate::sexpr::{Sexp, SexpV, lex, lex_overruns, raw_string_overruns, sexps_view, text_of};
use crate::strmap::StrMap;
use crate::text::{ends_with, string_of, to_chars, trim, trim_bounds};

verus! {

// ---------------------------------------------------------------------------
// String content of `(unicode ...)` arguments
// ---------------------------------------------------------------------------

/// The number of `#` that `s` begins with.
pub open spec fn hash_prefix_len(s: Seq<char>) -> nat
    decreases s.len(),
{
    if s.len() > 0 && s[0] == '#' {
        1 + hash_prefix_len(s.drop_first())
    } else {
        0
    }
}

/// `"` followed by `n` times `#`: what closes a raw string opened with `n` times `#`.
pub open spec fn raw_closing(n: nat) -> Seq<char> {
    seq!['"'] + Seq::new(n, |i: int| '#')
}

/// The content of `t` if it is a raw string `r#"..."#` (with any number of
/// `#`, also none).
pub open spec fn raw_string_inner(t: Seq<char>) -> Option<Seq<char>> {
    if t.len() > 0 && t[0] == 'r' {
        let rest = t.drop_first();
        let n = hash_prefix_len(rest);
        let after = rest.skip(n as int);
        if after.len() > 0 && after[0] == '"' {
            let inner = after.drop_first();
            if ends_with(inner, raw_closing(n)) {
                Some(inner.subrange(0, inner.len() - raw_closing(n).len()))
            } else {
                None
            }
        } else {
            None
        }
    } else {
        None
    }
}

/// The content of a raw string `r#"..."#` (with any number of `#`, also
/// none), of a string `"..."`, or else the trimmed text itself.
pub open spec fn raw_string_content(text: Seq<char>) -> Seq<char> {
    let t = trim(text);
    match raw_string_inner(t) {
        Some(x) => x,
        None => if t.len() >= 2 && t[0] == '"' && t.last() == '"' {
            t.subrange(1, t.len() - 1)
        } else {
            t
        },
    }
}

/// The bounds of the content of the characters `lo..hi` of `v`, if they
/// form a raw string.
fn raw_inner_bounds(v: &Vec<char>, lo: usize, hi: usize) -> (r: Option<(usize, usize)>)
    requires
        lo <= hi <= v.len(),
    ensures
        match raw_string_inner(v@.subrange(lo as int, hi as int)) {
            Some(x) => r matches Some(p) && p.0 <= p.1 <= hi && v@.subrange(p.0 as int, p.1 as int)
                == x,
            None => r is None,
        },
{
    let ghost t = v@.subrange(lo as int, hi as int);
    if !(hi > lo && v[lo] == 'r') {
        return None;
    }
    let ghost rest = t.drop_first();
    assert(rest =~= v@.subrange(lo + 1, hi as int));
    let mut h = lo + 1;
    while h < hi && v[h] == '#'
        invariant
            lo < h <= hi <= v@.len(),
            rest == v@.subrange(lo + 1, hi as int),
            hash_prefix_len(rest) == (h - lo - 1) + hash_prefix_len(v@.subrange(h as int, hi as int)),
        decreases hi - h,
    {
        assert(v@.subrange(h as int, hi as int).drop_first() =~= v@.subrange(h + 1, hi as int));
        h = h + 1;
    }
    let n = h - lo - 1;
    assert(rest.skip(n as int) =~= v@.subrange(h as int, hi as int));
    if !(h < hi && v[h] == '"') {
        return None;
    }
    let inner_start = h + 1;
    let ghost inner = v@.subrange(inner_start as int, hi as int);
    assert(rest.skip(n as int).drop_first() =~= inner);
    if !(hi - inner_start >= n + 1 && v[hi - n - 1] == '"') {
        assert(!ends_with(inner, raw_closing(n as nat))) by {
            if ends_with(inner, raw_closing(n as nat)) {
                let s = inner.subrange(inner.len() - raw_closing(n as nat).len(), inner.len() as int);
                assert(s[0] == raw_closing(n as nat)[0]);
            }
        }
        return None;
    }
    let mut k = hi - n;
    let mut all = true;
    while k < hi
        invariant
            hi - n <= k <= hi <= v@.len(),
            all == (forall|j: int| hi - n <= j < k ==> v@[j] == '#'),
        decreases hi - k,
    {
        if v[k] != '#' {
            all = false;
        }
        k = k + 1;
    }
    if all {
        assert(inner.subrange(inner.len() - raw_closing(n as nat).len(), inner.len() as int)
            =~= raw_closing(n as nat));
        assert(inner.subrange(0, inner.len() - raw_closing(n as nat).len()) =~= v@.subrange(
            inner_start as int,
            hi - n - 1,
        ));
        Some((inner_start, hi - n - 1))
    } else {
        assert(!ends_with(inner, raw_closing(n as nat))) by {
            let j = choose|j: int| hi - n <= j < hi && v@[j] != '#';
            if ends_with(inner, raw_closing(n as nat)) {
                let s = inner.subrange(inner.len() - raw_closing(n as nat).len(), inner.len() as int);
                assert(s[j - (hi - n - 1)] == raw_closing(n as nat)[j - (hi - n - 1)]);
            }
        }
        None
    }
}

/// Extracts display content from a raw string atom or bare atom:
/// `r#"""#` gives `"`, `r"x"` gives `x`, `"x"` gives `x`, `>` gives `>`.
pub fn extract_raw_string_content(text: &str) -> (r: String)
    ensures
        r@ == raw_string_content(text@),
{
    let v = to_chars(text);
    let (lo, hi) = trim_bounds(&v, 0, v.len());
    let ghost t = trim(text@);
    assert(v@.subrange(0, v@.len() as int) =~= text@);
    assert(v@.subrange(lo as int, hi as int) == t);
    if let Some((a, b)) = raw_inner_bounds(&v, lo, hi) {
        return string_of(&v, a, b);
    }
    if hi - lo >= 2 && v[lo] == '"' && v[hi - 1] == '"' {
        assert(t.subrange(1, t.len() - 1) =~= v@.subrange(lo + 1, hi - 1));
        return string_of(&v, lo + 1, hi - 1);
    }
    string_of(&v, lo, hi)
}

// ---------------------------------------------------------------------------
// Display results
// ---------------------------------------------------------------------------

/// How a key is shown: its label, an optional tooltip, and CSS classes.
#[derive(Clone, Debug)]
pub struct DisplayResult {
    pub label: String,
    pub tooltip: Option<String>,
    pub classes: Vec<&'static str>,
}

/// What a `DisplayResult` is.
pub struct DisplayResultV {
    pub label: Seq<char>,
    pub tooltip: Option<Seq<char>>,
    pub classes: Seq<Seq<char>>,
}

impl View for DisplayResult {
    type V = DisplayResultV;

    open spec fn view(&self) -> DisplayResultV {
        DisplayResultV {
            label: self.label@,
            tooltip: match self.tooltip {
                Some(t) => Some(t@),
                None => None,
            },
            classes: self.classes@.map_values(|c: &str| c@),
        }
    }
}

/// What the display of a key can look up: the alias definitions.
pub struct DisplayContext<'a> {
    pub aliases: &'a StrMap,
}

/// A token whose display may read it as an S-expression (it starts with
/// `(`) reads without a raw string running past its end.
pub open spec fn token_readable(token: Seq<char>) -> bool {
    token.len() > 0 && token[0] == '(' ==> !lex_overruns(token)
}

/// Whether the display of `token` can read it (see `token_readable`).
pub fn is_readable(token: &str) -> (r: bool)
    ensures
        r == token_readable(token@),
{
    let v = to_chars(token);
    if v.len() > 0 && v[0] == '(' {
        !raw_string_overruns(token)
    } else {
        true
    }
}

/// The way keys are shown; implement it to show keys otherwise.
pub trait KeyDisplay {
    /// What `display` gives for `token`, with the aliases `aliases`.
    spec fn spec_display(&self, token: Seq<char>, aliases: Map<Seq<char>, Seq<char>>) -> DisplayResultV;

    fn display(&self, token: &str, ctx: &DisplayContext) -> (r: DisplayResult)
        requires
            token_readable(token@),
        ensures
            r@ == self.spec_display(token@, ctx.aliases@),
    ;
}

/// The display of a `(...)` token read as an S-expression: for
/// `(unicode X)` the content of `X` with the class `unicode`, for any other
/// list with an atom head the token with the class `sexpr`.
pub open spec fn sexpr_display(token: Seq<char>) -> Option<(Seq<char>, Seq<Seq<char>>)> {
    let b = encode_utf8(token);
    match lex(b) {
        Err(_) => None,
        Ok(top) => if top.len() == 0 {
            None
        } else {
            match top[0] {
                SexpV::List { items, .. } => if items.len() == 0 {
                    None
                } else {
                    match items[0] {
                        SexpV::Atom { text: head, .. } => if head == "unicode"@ {
                            if items.len() < 2 {
                                None
                            } else {
                                Some(
                                    (
                                        raw_string_content(text_of(b, items[1])),
                                        seq!["unicode"@],
                                    ),
                                )
                            }
                        } else {
                            Some((token, seq!["sexpr"@]))
                        },
                        SexpV::List { .. } => None,
                    }
                },
                SexpV::Atom { .. } => None,
            }
        },
    }
}

/// How keys are shown by default: `@alias` as is, with the alias
/// definition as tooltip and the class `alias`; `(unicode X)` as the content
/// of `X` with the class `unicode`; other `(...)` as is with the class
/// `sexpr`; anything else as is.
pub open spec fn default_display(token: Seq<char>, aliases: Map<Seq<char>, Seq<char>>) -> DisplayResultV {
    if token.len() > 0 && token[0] == '@' {
        DisplayResultV {
            label: token,
            tooltip: if aliases.contains_key(token.drop_first()) {
                Some(aliases[token.drop_first()])
            } else {
                None
            },
            classes: seq!["alias"@],
        }
    } else if token.len() > 0 && token[0] == '(' {
        match sexpr_display(token) {
            Some((label, classes)) => DisplayResultV { label, tooltip: None, classes },
            None => DisplayResultV { label: token, tooltip: None, classes: seq!["sexpr"@] },
        }
    } else {
        DisplayResultV { label: token, tooltip: None, classes: seq![] }
    }
}

/// Shows keys as `default_display` says.
pub struct DefaultDisplay;

impl KeyDisplay for DefaultDisplay {
    open spec fn spec_display(&self, token: Seq<char>, aliases: Map<Seq<char>, Seq<char>>) -> DisplayResultV {
        default_display(token, aliases)
    }

    fn display(&self, token: &str, ctx: &DisplayContext) -> (r: DisplayResult) {
        let v = to_chars(token);
        if v.len() > 0 && v[0] == '@' {
            let name = string_of(&v, 1, v.len());
            assert(v@.subrange(1, v@.len() as int) =~= token@.drop_first());
            let tooltip = match ctx.aliases.get(name.as_str()) {
                Some(t) => Some(t.clone()),
                None => None,
            };
            let r = DisplayResult { label: token.to_owned(), tooltip, classes: vec!["alias"] };
            assert(r@.classes =~= seq!["alias"@]);
            return r;
        }
        if v.len() > 0 && v[0] == '(' {
            if let Some(res) = display_sexpr(token) {
                return res;
            }
            let r = DisplayResult { label: token.to_owned(), tooltip: None, classes: vec!["sexpr"] };
            assert(r@.classes =~= seq!["sexpr"@]);
            return r;
        }
        let r = DisplayResult { label: token.to_owned(), tooltip: None, classes: vec![] };
        assert(r@.classes =~= Seq::<Seq<char>>::empty());
        r
    }
}

/// The display of a `(...)` token, if it reads as a list with an atom head.
pub(crate) fn display_sexpr(token: &str) -> (r: Option<DisplayResult>)
    requires
        !lex_overruns(token@),
    ensures
        match sexpr_display(token@) {
            Some((label, classes)) => r matches Some(d) && d@ == (DisplayResultV {
                label,
                tooltip: None,
                classes,
            }),
            None => r is None,
        },
{
    let top = match crate::sexpr::parse(token) {
        Ok(t) => t,
        Err(_) => {
            return None;
        },
    };
    if top.len() == 0 {
        return None;
    }
    let first = &top[0];
    assert(sexps_view(top@)[0] == first@);
    let items = match first {
        Sexp::List { items, .. } => {
            proof {
                crate::sexpr::lemma_list_view(first);
            }
            items
        },
        Sexp::Atom { .. } => {
            return None;
        },
    };
    if items.len() == 0 {
        return None;
    }
    let head = match &items[0] {
        Sexp::Atom { text, .. } => text,
        Sexp::List { .. } => {
            assert(sexps_view(items@)[0] == items@[0]@);
            return None;
        },
    };
    assert(sexps_view(items@)[0] == items@[0]@);
    if crate::text::str_eq(head.as_str(), "unicode") {
        if items.len() < 2 {
            return None;
        }
        let arg = &items[1];
        assert(sexps_view(items@)[1] == arg@);
        proof {
            assert(crate::sexpr::sexp_wf(token.spec_bytes(), top@[0]@));
            assert(crate::sexpr::sexp_wf(token.spec_bytes(), sexps_view(items@)[1]));
        }
        let label = extract_raw_string_content(arg.as_text(token).as_str());
        let r = DisplayResult { label, tooltip: None, classes: vec!["unicode"] };
        assert(r@.classes =~= seq!["unicode"@]);
        return Some(r);
    }
    let r = DisplayResult { label: token.to_owned(), tooltip: None, classes: vec!["sexpr"] };
    assert(r@.classes =~= seq!["sexpr"@]);
    Some(r)
}


/// An `@name` key shows as typed, with the class `alias` and, when `name`
/// is a defined alias, its definition as tooltip.
pub proof fn law_alias_display(name: Seq<char>, aliases: Map<Seq<char>, Seq<char>>)
    ensures
        default_display(seq!['@'] + name, aliases) == (DisplayResultV {
            label: seq!['@'] + name,
            tooltip: if aliases.contains_key(name) {
                Some(aliases[name])
            } else {
                None
            },
            classes: seq!["alias"@],
        }),
{
    assert((seq!['@'] + name).drop_first() =~= name);
}

} // verus!
