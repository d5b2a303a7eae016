//! From the nodes of a configuration to its model: the `defsrc` keys and
//! their grid, the aliases, and the layers, with the `;; name:` and
//! `;; desc:` comments that stand above each form.
use vstd::prelude::*;
use vstd::string::*;
use vstd::utf8::*;
use crate::layout::{GridLayout, GridLayoutV, compute_layout, key_positions, layout_of};
use crate::sexpr::{
    LexError, ParseError, Sexp, SexpV, Span, lex, lex_error_message, lex_overruns, sexp_wf,
    sexps_view, text_of,
};
use crate::strmap::StrMap;
use crate::text::{
    at_char_start, chars_start_with, skip_ws_chars, starts_with, str_eq, string_of, substring,
    to_chars, trim, trim_bounds, trim_start,
};

verus! {

// ---------------------------------------------------------------------------
// The model
// ---------------------------------------------------------------------------

/// A configuration: its `defsrc`, its aliases and its layers.
#[derive(Debug)]
pub struct Model {
    pub src: DefSrc,
    pub aliases: StrMap,
    pub layers: Vec<Layer>,
}

/// The `defsrc` keys, their grid, and the comment title and description.
#[derive(Debug)]
pub struct DefSrc {
    pub keys: Vec<String>,
    pub layout: GridLayout,
    pub title: Option<String>,
    pub desc: Option<String>,
}

/// A layer: `deflayer` lists an action for each `defsrc` key in order,
/// `deflayermap` maps some `defsrc` keys to actions. A deprecated layer is
/// kept in the model but shows no section; the configuration syntax gives
/// no way to mark one, so `parse` leaves every layer not deprecated.
#[derive(Debug)]
pub enum Layer {
    Full {
        name: String,
        keys: Vec<String>,
        title: Option<String>,
        desc: Option<String>,
        deprecate: bool,
    },
    Sparse {
        name: String,
        map: StrMap,
        title: Option<String>,
        desc: Option<String>,
        deprecate: bool,
    },
}

/// What a `DefSrc` is.
pub struct DefSrcV {
    pub keys: Seq<Seq<char>>,
    pub layout: GridLayoutV,
    pub title: Option<Seq<char>>,
    pub desc: Option<Seq<char>>,
}

/// What a `Layer` is.
pub enum LayerV {
    Full {
        name: Seq<char>,
        keys: Seq<Seq<char>>,
        title: Option<Seq<char>>,
        desc: Option<Seq<char>>,
        deprecate: bool,
    },
    Sparse {
        name: Seq<char>,
        map: Map<Seq<char>, Seq<char>>,
        title: Option<Seq<char>>,
        desc: Option<Seq<char>>,
        deprecate: bool,
    },
}

/// What a `Model` is.
pub struct ModelV {
    pub src: DefSrcV,
    pub aliases: Map<Seq<char>, Seq<char>>,
    pub layers: Seq<LayerV>,
}

/// The characters of each string.
pub open spec fn strings_view(v: Seq<String>) -> Seq<Seq<char>> {
    v.map_values(|s: String| s@)
}

impl View for DefSrc {
    type V = DefSrcV;

    open spec fn view(&self) -> DefSrcV {
        DefSrcV {
            keys: strings_view(self.keys@),
            layout: self.layout@,
            title: opt_view(self.title),
            desc: opt_view(self.desc),
        }
    }
}

impl View for Layer {
    type V = LayerV;

    open spec fn view(&self) -> LayerV {
        match self {
            Layer::Full { name, keys, title, desc, deprecate } => LayerV::Full {
                name: name@,
                keys: strings_view(keys@),
                title: opt_view(*title),
                desc: opt_view(*desc),
                deprecate: *deprecate,
            },
            Layer::Sparse { name, map, title, desc, deprecate } => LayerV::Sparse {
                name: name@,
                map: map@,
                title: opt_view(*title),
                desc: opt_view(*desc),
                deprecate: *deprecate,
            },
        }
    }
}

/// The views of the layers.
pub open spec fn layers_view(v: Seq<Layer>) -> Seq<LayerV> {
    v.map_values(|l: Layer| l@)
}

impl View for Model {
    type V = ModelV;

    open spec fn view(&self) -> ModelV {
        ModelV { src: self.src@, aliases: self.aliases@, layers: layers_view(self.layers@) }
    }
}

// ---------------------------------------------------------------------------
// Comments above a form
// ---------------------------------------------------------------------------

/// The index of the last `\n` among the first `n` characters of `s`.
pub open spec fn last_newline(s: Seq<char>, n: nat) -> Option<nat>
    decreases n,
{
    if n == 0 {
        None
    } else if s[n - 1] == '\n' {
        Some((n - 1) as nat)
    } else {
        last_newline(s, (n - 1) as nat)
    }
}

/// The index of the first `\n` of `s` at or after `i`.
pub open spec fn next_newline(s: Seq<char>, i: nat) -> Option<nat>
    decreases s.len() - i,
{
    if i >= s.len() {
        None
    } else if s[i as int] == '\n' {
        Some(i)
    } else {
        next_newline(s, i + 1)
    }
}

/// A line without the `\r` of a `\r\n` ending.
pub open spec fn strip_cr(l: Seq<char>) -> Seq<char> {
    if l.len() > 0 && l.last() == '\r' {
        l.drop_last()
    } else {
        l
    }
}

/// `str::lines`: the lines of `s`, split at `\n` (a `\r` before it is
/// dropped); an ending `\n` does not start a last, empty line.
pub open spec fn lines_of(s: Seq<char>) -> Seq<Seq<char>>
    decreases s.len(),
{
    if s.len() == 0 {
        seq![]
    } else {
        match next_newline(s, 0) {
            None => seq![s],
            Some(k) => {
                proof {
                    lemma_next_newline(s, 0);
                }
                seq![strip_cr(s.subrange(0, k as int))] + lines_of(
                    s.subrange(k + 1 as int, s.len() as int),
                )
            },
        }
    }
}

/// Reads the lines `0..k` from the last one up, while they are `;;`
/// comments: the first `name:` comment met gives the title, the first
/// `desc:` comment met gives the description.
pub open spec fn meta_scan(
    lines: Seq<Seq<char>>,
    k: nat,
    title: Option<Seq<char>>,
    desc: Option<Seq<char>>,
) -> (Option<Seq<char>>, Option<Seq<char>>)
    decreases k,
{
    if k == 0 || k > lines.len() {
        (title, desc)
    } else {
        let t = trim_start(lines[k - 1]);
        if !starts_with(t, ";;"@) {
            (title, desc)
        } else {
            let r = trim_start(t.skip(2));
            if starts_with(r, "name:"@) {
                let title2 = if title is None {
                    Some(trim(r.skip(5)))
                } else {
                    title
                };
                meta_scan(lines, (k - 1) as nat, title2, desc)
            } else if starts_with(r, "desc:"@) && desc is None {
                meta_scan(lines, (k - 1) as nat, title, Some(trim(r.skip(5))))
            } else {
                meta_scan(lines, (k - 1) as nat, title, desc)
            }
        }
    }
}

/// The title and description of a form whose line is preceded by the text
/// `pre`: they come from the `;; name:` and `;; desc:` comment lines right
/// above that line, the nearest of each.
pub open spec fn meta_of(pre: Seq<char>) -> (Option<Seq<char>>, Option<Seq<char>>) {
    match last_newline(pre, pre.len()) {
        None => (None, None),
        Some(i) => {
            let lines = lines_of(pre.subrange(0, i as int));
            meta_scan(lines, lines.len(), None, None)
        },
    }
}

/// The characters of the source bytes `b` before position `p`.
pub open spec fn prefix_chars(b: Seq<u8>, p: int) -> Seq<char> {
    decode_utf8(b.subrange(0, p))
}

pub proof fn lemma_next_newline(s: Seq<char>, i: nat)
    ensures
        next_newline(s, i) matches Some(k) ==> i <= k < s.len() && s[k as int] == '\n' && forall|
            j: int,
        | i <= j < k ==> s[j] != '\n',
        next_newline(s, i) is None ==> forall|j: int| i <= j < s.len() ==> s[j] != '\n',
    decreases s.len() - i,
{
    if i < s.len() && s[i as int] != '\n' {
        lemma_next_newline(s, i + 1);
    }
}

pub proof fn lemma_last_newline(s: Seq<char>, n: nat)
    requires
        n <= s.len(),
    ensures
        last_newline(s, n) matches Some(k) ==> k < n && s[k as int] == '\n',
    decreases n,
{
    if n > 0 && s[n - 1] != '\n' {
        lemma_last_newline(s, (n - 1) as nat);
    }
}

/// The optional string as its characters.
pub open spec fn opt_view(o: Option<String>) -> Option<Seq<char>> {
    match o {
        Some(s) => Some(s@),
        None => None,
    }
}

/// The line ranges `(start, end)` of the characters `0..hi` of `v`, as
/// `str::lines` splits them.
fn line_ranges(v: &Vec<char>, hi: usize) -> (r: Vec<(usize, usize)>)
    requires
        hi <= v.len(),
    ensures
        r@.len() == lines_of(v@.subrange(0, hi as int)).len(),
        forall|k: int| 0 <= k < r@.len() ==> (#[trigger] r@[k]).0 <= r@[k].1 <= hi,
        forall|k: int|
            0 <= k < r@.len() ==> v@.subrange(r@[k].0 as int, r@[k].1 as int) == #[trigger] lines_of(
                v@.subrange(0, hi as int),
            )[k],
{
    let ghost all = v@.subrange(0, hi as int);
    let mut r: Vec<(usize, usize)> = Vec::new();
    let mut a: usize = 0;
    while a < hi
        invariant
            hi <= v.len(),
            a <= hi,
            all == v@.subrange(0, hi as int),
            lines_of(all) == r@.map_values(
                |p: (usize, usize)| v@.subrange(p.0 as int, p.1 as int),
            ) + lines_of(v@.subrange(a as int, hi as int)),
            forall|k: int| 0 <= k < r@.len() ==> (#[trigger] r@[k]).0 <= r@[k].1 <= hi,
        decreases hi - a,
    {
        let ghost s = v@.subrange(a as int, hi as int);
        let ghost old_r = r@;
        let mut k = a;
        while k < hi && v[k] != '\n'
            invariant
                a <= k <= hi <= v.len(),
                s == v@.subrange(a as int, hi as int),
                next_newline(s, (k - a) as nat) == next_newline(s, 0),
            decreases hi - k,
        {
            k = k + 1;
        }
        proof {
            lemma_next_newline(s, 0);
        }
        if k == hi {
            r.push((a, hi));
            proof {
                assert(lines_of(s) == seq![s]);
                assert(lines_of(v@.subrange(hi as int, hi as int)) =~= Seq::<Seq<char>>::empty());
                assert(r@.map_values(|p: (usize, usize)| v@.subrange(p.0 as int, p.1 as int))
                    =~= old_r.map_values(|p: (usize, usize)| v@.subrange(p.0 as int, p.1 as int))
                    + seq![s]);
            }
            a = hi;
        } else {
            let e = if k > a && v[k - 1] == '\r' {
                k - 1
            } else {
                k
            };
            r.push((a, e));
            proof {
                let kk = (k - a) as nat;
                assert(next_newline(s, 0) == Some(kk));
                assert(s.subrange(0, kk as int) =~= v@.subrange(a as int, k as int));
                assert(strip_cr(s.subrange(0, kk as int)) =~= v@.subrange(a as int, e as int));
                assert(s.subrange(kk + 1 as int, s.len() as int) =~= v@.subrange(k + 1, hi as int));
                assert(r@.map_values(|p: (usize, usize)| v@.subrange(p.0 as int, p.1 as int))
                    =~= old_r.map_values(|p: (usize, usize)| v@.subrange(p.0 as int, p.1 as int))
                    + seq![v@.subrange(a as int, e as int)]);
            }
            a = k + 1;
        }
    }
    proof {
        assert(lines_of(v@.subrange(a as int, hi as int)) =~= Seq::<Seq<char>>::empty());
        let m = r@.map_values(|p: (usize, usize)| v@.subrange(p.0 as int, p.1 as int));
        assert(lines_of(all) =~= m);
        assert forall|k: int| 0 <= k < r@.len() implies #[trigger] lines_of(all)[k] == v@.subrange(
            r@[k].0 as int,
            r@[k].1 as int,
        ) by {
            assert(m[k] == v@.subrange(r@[k].0 as int, r@[k].1 as int));
        }
    }
    r
}

/// The title (`;; name:`) and description (`;; desc:`) of the form that
/// starts at the byte position `form_start` of `source`, from the `;;`
/// comment lines right above the line of the form.
pub fn extract_meta(source: &str, form_start: usize) -> (r: (Option<String>, Option<String>))
    requires
        at_char_start(source.spec_bytes(), form_start as int),
    ensures
        (opt_view(r.0), opt_view(r.1)) == meta_of(
            prefix_chars(source.spec_bytes(), form_start as int),
        ),
{
    proof {
        encode_utf8_valid_utf8(source@);
        crate::text::lemma_start_char_start(source.spec_bytes());
    }
    let prefix = substring(source, 0, form_start);
    let v = to_chars(prefix.as_str());
    let ghost pre = v@;
    // the last `\n` before the form
    let mut i = v.len();
    while i > 0 && v[i - 1] != '\n'
        invariant
            i <= v@.len(),
            pre == v@,
            last_newline(pre, i as nat) == last_newline(pre, pre.len()),
        decreases i,
    {
        i = i - 1;
    }
    if i == 0 {
        return (None, None);
    }
    let nl = i - 1;
    assert(last_newline(pre, pre.len()) == Some(nl as nat));
    let lines = line_ranges(&v, nl);
    let ghost ls = lines_of(pre.subrange(0, nl as int));
    assert forall|j: int| 0 <= j < lines@.len() implies v@.subrange(
        lines@[j].0 as int,
        lines@[j].1 as int,
    ) == #[trigger] ls[j] by {
        assert(lines_of(v@.subrange(0, nl as int))[j] == v@.subrange(
            lines@[j].0 as int,
            lines@[j].1 as int,
        ));
    }
    let mut title: Option<String> = None;
    let mut desc: Option<String> = None;
    let mut k = lines.len();
    proof {
        reveal_strlit(";;");
        reveal_strlit("name:");
        reveal_strlit("desc:");
    }
    while k > 0
        invariant_except_break
            meta_scan(ls, ls.len(), None, None) == meta_scan(
                ls,
                k as nat,
                opt_view(title),
                opt_view(desc),
            ),
        invariant
            k <= lines@.len(),
            lines@.len() == ls.len(),
            pre == v@,
            ";;"@ == seq![';', ';'],
            "name:"@ == seq!['n', 'a', 'm', 'e', ':'],
            "desc:"@ == seq!['d', 'e', 's', 'c', ':'],
            forall|j: int| 0 <= j < lines@.len() ==> (#[trigger] lines@[j]).0 <= lines@[j].1 <= nl,
            forall|j: int|
                0 <= j < lines@.len() ==> v@.subrange(lines@[j].0 as int, lines@[j].1 as int)
                    == #[trigger] ls[j],
            nl < v@.len(),
        ensures
            meta_scan(ls, ls.len(), None, None) == (opt_view(title), opt_view(desc)),
        decreases k,
    {
        let (lo, hi) = lines[k - 1];
        let ghost line = ls[k - 1];
        assert(v@.subrange(lo as int, hi as int) == line);
        let t0 = skip_ws_chars(&v, lo, hi);
        let ghost t = trim_start(line);
        assert(v@.subrange(t0 as int, hi as int) == t);
        if !chars_start_with(&v, t0, hi, ";;") {
            break ;
        }
        assert(v@.subrange(t0 + 2, hi as int) =~= t.skip(2));
        let r0 = skip_ws_chars(&v, t0 + 2, hi);
        let ghost rr = trim_start(t.skip(2));
        assert(v@.subrange(r0 as int, hi as int) == rr);
        if chars_start_with(&v, r0, hi, "name:") {
            assert(v@.subrange(r0 + 5, hi as int) =~= rr.skip(5));
            if title.is_none() {
                let (a, b) = trim_bounds(&v, r0 + 5, hi);
                title = Some(string_of(&v, a, b));
            }
        } else if chars_start_with(&v, r0, hi, "desc:") && desc.is_none() {
            assert(v@.subrange(r0 + 5, hi as int) =~= rr.skip(5));
            let (a, b) = trim_bounds(&v, r0 + 5, hi);
            desc = Some(string_of(&v, a, b));
        }
        k = k - 1;
    }
    (title, desc)
}


// ---------------------------------------------------------------------------
// Forms, as the model reads them
// ---------------------------------------------------------------------------

/// The text of an atom.
pub open spec fn atom_text(s: SexpV) -> Option<Seq<char>> {
    match s {
        SexpV::Atom { text, .. } => Some(text),
        SexpV::List { .. } => None,
    }
}

/// The items of a list (none for an atom).
pub open spec fn list_items(s: SexpV) -> Seq<SexpV> {
    match s {
        SexpV::List { items, .. } => items,
        SexpV::Atom { .. } => seq![],
    }
}

/// The head of a list whose first item is an atom: the text of that atom.
pub open spec fn head_of(s: SexpV) -> Option<Seq<char>> {
    match s {
        SexpV::List { items, .. } => if items.len() > 0 {
            atom_text(items[0])
        } else {
            None
        },
        SexpV::Atom { .. } => None,
    }
}

/// The forms that the model reads from `items`, in order: a
/// `(platform (X) ...)` form stands for the forms inside it when `X` is
/// `platform`, and for nothing otherwise.
pub open spec fn walk(items: Seq<SexpV>, platform: Seq<char>) -> Seq<SexpV>
    decreases items,
{
    if items.len() == 0 {
        seq![]
    } else {
        let f = items[0];
        let rest = walk(items.drop_first(), platform);
        if head_of(f) == Some("platform"@) {
            let sub = list_items(f);
            if sub.len() > 1 && head_of(sub[1]) == Some(platform) {
                proof {
                    assert(decreases_to!(items => f));
                    assert(decreases_to!(f => sub));
                    assert(decreases_to!(sub => sub.subrange(2, sub.len() as int)));
                }
                walk(sub.subrange(2, sub.len() as int), platform) + rest
            } else {
                rest
            }
        } else {
            seq![f] + rest
        }
    }
}

/// The map that the pairs `name value` of `items` from `i` on add to `m`;
/// a pair whose name is not an atom adds nothing.
pub open spec fn pairs_into(b: Seq<u8>, items: Seq<SexpV>, i: nat, m: Map<Seq<char>, Seq<char>>) -> Map<
    Seq<char>,
    Seq<char>,
>
    decreases items.len() - i,
{
    if i + 1 < items.len() {
        let m2 = match atom_text(items[i as int]) {
            Some(n) => m.insert(n, text_of(b, items[i + 1 as int])),
            None => m,
        };
        pairs_into(b, items, i + 2, m2)
    } else {
        m
    }
}

/// The texts of the items from `from` on.
pub open spec fn keys_of(b: Seq<u8>, items: Seq<SexpV>, from: int) -> Seq<Seq<char>> {
    items.subrange(from, items.len() as int).map_values(|s: SexpV| text_of(b, s))
}

/// The byte ranges of the items from `from` on.
pub open spec fn spans_of(items: Seq<SexpV>, from: int) -> Seq<Span> {
    items.subrange(from, items.len() as int).map_values(
        |s: SexpV| Span { start: s.start() as usize, end: s.end() as usize },
    )
}

/// The layer of `(deflayer NAME key ...)`.
pub open spec fn deflayer_of(
    b: Seq<u8>,
    items: Seq<SexpV>,
    title: Option<Seq<char>>,
    desc: Option<Seq<char>>,
) -> Option<LayerV> {
    if items.len() > 1 {
        match atom_text(items[1]) {
            Some(name) => Some(
                LayerV::Full { name, keys: keys_of(b, items, 2), title, desc, deprecate: false },
            ),
            None => None,
        }
    } else {
        None
    }
}

/// The layer of `(deflayermap (NAME) key action ...)`; the name may also be a bare atom.
pub open spec fn deflayermap_of(
    b: Seq<u8>,
    items: Seq<SexpV>,
    title: Option<Seq<char>>,
    desc: Option<Seq<char>>,
) -> Option<LayerV> {
    if items.len() > 1 {
        let name = match items[1] {
            SexpV::List { items: ni, .. } => if ni.len() > 0 {
                atom_text(ni[0])
            } else {
                None
            },
            SexpV::Atom { text, .. } => Some(text),
        };
        match name {
            Some(name) => Some(
                LayerV::Sparse {
                    name,
                    map: pairs_into(b, items, 2, Map::empty()),
                    title,
                    desc,
                    deprecate: false,
                },
            ),
            None => None,
        }
    } else {
        None
    }
}

/// What the forms read so far give: aliases, the last `defsrc` (keys,
/// ranges, title, description), and the layers.
pub struct ParseState {
    pub aliases: Map<Seq<char>, Seq<char>>,
    pub src: Option<(Seq<Seq<char>>, Seq<Span>, Option<Seq<char>>, Option<Seq<char>>)>,
    pub layers: Seq<LayerV>,
}

/// Reads the form `f`.
pub open spec fn step(b: Seq<u8>, st: ParseState, f: SexpV) -> ParseState {
    match head_of(f) {
        None => st,
        Some(head) => {
            let items = list_items(f);
            let meta = meta_of(prefix_chars(b, f.start()));
            if head == "defalias"@ {
                ParseState { aliases: pairs_into(b, items, 1, st.aliases), ..st }
            } else if head == "defsrc"@ {
                ParseState {
                    src: Some((keys_of(b, items, 1), spans_of(items, 1), meta.0, meta.1)),
                    ..st
                }
            } else if head == "deflayer"@ {
                match deflayer_of(b, items, meta.0, meta.1) {
                    Some(l) => ParseState { layers: st.layers.push(l), ..st },
                    None => st,
                }
            } else if head == "deflayermap"@ {
                match deflayermap_of(b, items, meta.0, meta.1) {
                    Some(l) => ParseState { layers: st.layers.push(l), ..st },
                    None => st,
                }
            } else {
                st
            }
        },
    }
}

/// Reads the first `n` forms.
pub open spec fn fold_forms(b: Seq<u8>, forms: Seq<SexpV>, n: nat) -> ParseState
    decreases n,
{
    if n == 0 || n > forms.len() {
        ParseState { aliases: Map::empty(), src: None, layers: seq![] }
    } else {
        step(b, fold_forms(b, forms, (n - 1) as nat), forms[n - 1])
    }
}

/// The model that the forms give.
pub open spec fn model_of(b: Seq<u8>, forms: Seq<SexpV>) -> ModelV {
    let st = fold_forms(b, forms, forms.len());
    let (keys, spans, title, desc) = match st.src {
        Some(s) => s,
        None => (seq![], seq![], None, None),
    };
    ModelV {
        src: DefSrcV { keys, layout: layout_of(b, spans), title, desc },
        aliases: st.aliases,
        layers: st.layers,
    }
}

/// The model of the configuration with source bytes `b`, read for `platform`.
pub open spec fn parse_model(b: Seq<u8>, platform: Seq<char>) -> Result<ModelV, LexError> {
    match lex(b) {
        Ok(sexps) => Ok(model_of(b, walk(sexps, platform))),
        Err(e) => Err(e),
    }
}

/// Forms that `walk` gives were read from `b` as the items were.
#[verifier::spinoff_prover]
pub proof fn lemma_walk_wf(b: Seq<u8>, items: Seq<SexpV>, platform: Seq<char>)
    requires
        forall|k: int| 0 <= k < items.len() ==> sexp_wf(b, #[trigger] items[k]),
    ensures
        forall|k: int|
            0 <= k < walk(items, platform).len() ==> sexp_wf(b, #[trigger] walk(items, platform)[k]),
    decreases items,
{
    if items.len() > 0 {
        let f = items[0];
        let rest = items.drop_first();
        assert(forall|k: int| 0 <= k < rest.len() ==> rest[k] == items[k + 1]);
        lemma_walk_wf(b, rest, platform);
        if head_of(f) == Some("platform"@) {
            let sub = list_items(f);
            if sub.len() > 1 && head_of(sub[1]) == Some(platform) {
                let inner = sub.subrange(2, sub.len() as int);
                assert(sexp_wf(b, items[0]));
                assert(forall|k: int| 0 <= k < inner.len() ==> inner[k] == sub[k + 2]);
                assert(decreases_to!(items => f));
                assert(decreases_to!(f => sub));
                assert(decreases_to!(sub => inner));
                lemma_walk_wf(b, inner, platform);
                let w = walk(items, platform);
                let wi = walk(inner, platform);
                let wr = walk(rest, platform);
                assert(w == wi + wr);
                assert forall|k: int| 0 <= k < w.len() implies sexp_wf(b, #[trigger] w[k]) by {
                    if k < wi.len() {
                        assert(w[k] == wi[k]);
                    } else {
                        assert(w[k] == wr[k - wi.len()]);
                    }
                }
            } else {
                assert(walk(items, platform) == walk(rest, platform));
            }
        } else {
            let w = walk(items, platform);
            let wr = walk(rest, platform);
            assert(w == seq![f] + wr);
            assert forall|k: int| 0 <= k < w.len() implies sexp_wf(b, #[trigger] w[k]) by {
                if k > 0 {
                    assert(w[k] == wr[k - 1]);
                }
            }
        }
    }
}

// ---------------------------------------------------------------------------
// Reading the forms
// ---------------------------------------------------------------------------

/// The views of the nodes that `v` refers to.
pub open spec fn refs_view(v: Seq<&Sexp>) -> Seq<SexpV> {
    v.map_values(|r: &Sexp| r@)
}

/// Appends to `out` the forms of `items` that the model reads, in order:
/// descends into `(platform (X) ...)` only when `X` is `platform`.
fn walk_top<'a>(items: &'a [Sexp], platform: &str, out: &mut Vec<&'a Sexp>)
    ensures
        refs_view(final(out)@) == refs_view(old(out)@) + walk(sexps_view(items@), platform@),
    decreases items@,
{
    let ghost iv = sexps_view(items@);
    let mut i: usize = 0;
    assert(iv.subrange(0, iv.len() as int) =~= iv);
    while i < items.len()
        invariant
            iv == sexps_view(items@),
            i <= items@.len(),
            refs_view(out@) + walk(iv.subrange(i as int, iv.len() as int), platform@) == refs_view(
                old(out)@,
            ) + walk(iv, platform@),
        decreases items@.len() - i,
    {
        let ghost tail = iv.subrange(i as int, iv.len() as int);
        let ghost next = iv.subrange(i + 1, iv.len() as int);
        assert(tail.drop_first() =~= next);
        assert(tail[0] == items@[i as int]@);
        let ghost old_out = out@;
        let item = &items[i];
        let mut done = false;
        if let Sexp::List { items: sub, .. } = item {
            proof {
                crate::sexpr::lemma_list_view(item);
            }
            if sub.len() > 0 {
                if let Sexp::Atom { text: head, .. } = &sub[0] {
                    if str_eq(head.as_str(), "platform") {
                        assert(head_of(item@) == Some("platform"@));
                        if sub.len() > 1 {
                            if let Sexp::List { items: plat, .. } = &sub[1] {
                                proof {
                                    crate::sexpr::lemma_list_view(&sub[1]);
                                }
                                if plat.len() > 0 {
                                    if let Sexp::Atom { text: name, .. } = &plat[0] {
                                        if str_eq(name.as_str(), platform) {
                                            let inner = vstd::slice::slice_subrange(
                                                sub.as_slice(),
                                                2,
                                                sub.len(),
                                            );
                                            assert(sexps_view(inner@) =~= list_items(
                                                item@,
                                            ).subrange(2, sub@.len() as int));
                                            assert(decreases_to!(items@ => items@[i as int]));
                                            walk_top(inner, platform, out);
                                        }
                                    }
                                }
                            }
                        }
                        done = true;
                    }
                }
            }
        }
        if !done {
            out.push(item);
            assert(refs_view(out@) =~= refs_view(old_out).push(item@));
        }
        proof {
            assert(refs_view(old_out) + walk(tail, platform@) == refs_view(old(out)@) + walk(
                iv,
                platform@,
            ));
            assert(refs_view(out@) + walk(next, platform@) =~= refs_view(old_out) + walk(
                tail,
                platform@,
            ));
        }
        i = i + 1;
    }
    assert(walk(iv.subrange(iv.len() as int, iv.len() as int), platform@) =~= Seq::<SexpV>::empty());
}

/// Whether all the nodes of `items` were read from `b`.
pub open spec fn all_wf(b: Seq<u8>, items: Seq<Sexp>) -> bool {
    forall|k: int| 0 <= k < items.len() ==> sexp_wf(b, #[trigger] items[k]@)
}

/// Adds the `name value` pairs of `(defalias name value ...)` to `aliases`.
fn collect_aliases(items: &[Sexp], source: &str, aliases: &mut StrMap)
    requires
        all_wf(source.spec_bytes(), items@),
        items@.len() >= 1,
    ensures
        final(aliases)@ == pairs_into(
            source.spec_bytes(),
            sexps_view(items@),
            1,
            old(aliases)@,
        ),
{
    let ghost b = source.spec_bytes();
    let ghost iv = sexps_view(items@);
    let mut i: usize = 1;
    while items.len() - i > 1
        invariant
            iv == sexps_view(items@),
            b == source.spec_bytes(),
            all_wf(b, items@),
            1 <= i <= items@.len(),
            pairs_into(b, iv, i as nat, aliases@) == pairs_into(b, iv, 1, old(aliases)@),
        decreases items@.len() - i,
    {
        assert(sexp_wf(b, items@[i + 1 as int]@));
        let name = items[i].as_atom();
        let def = items[i + 1].as_text(source);
        if let Some(name) = name {
            aliases.insert(name.to_owned(), def);
        }
        i += 2;
    }
}

/// The keys of `(defsrc key ...)` and their byte ranges.
fn collect_src(items: &[Sexp], source: &str) -> (r: (Vec<String>, Vec<Span>))
    requires
        all_wf(source.spec_bytes(), items@),
        items@.len() >= 1,
    ensures
        strings_view(r.0@) == keys_of(source.spec_bytes(), sexps_view(items@), 1),
        r.1@ == spans_of(sexps_view(items@), 1),
{
    let ghost b = source.spec_bytes();
    let ghost iv = sexps_view(items@);
    let mut keys: Vec<String> = Vec::new();
    let mut spans: Vec<Span> = Vec::new();
    let mut i: usize = 1;
    while i < items.len()
        invariant
            iv == sexps_view(items@),
            b == source.spec_bytes(),
            all_wf(b, items@),
            1 <= i <= items@.len(),
            strings_view(keys@) == keys_of(b, iv, 1).subrange(0, i - 1),
            spans@ == spans_of(iv, 1).subrange(0, i - 1),
        decreases items@.len() - i,
    {
        assert(sexp_wf(b, items@[i as int]@));
        let ghost old_keys = keys@;
        let ghost old_spans = spans@;
        let t = items[i].as_text(source);
        assert(keys_of(b, iv, 1)[i - 1] == text_of(b, iv[i as int]));
        assert(spans_of(iv, 1)[i - 1] == (Span { start: iv[i as int].start() as usize, end: iv[i as int].end() as usize }));
        keys.push(t);
        spans.push(items[i].span());
        assert(strings_view(keys@) =~= strings_view(old_keys).push(t@));
        assert(keys_of(b, iv, 1).subrange(0, i as int) =~= keys_of(b, iv, 1).subrange(0, i - 1).push(
            keys_of(b, iv, 1)[i - 1],
        ));
        assert(spans_of(iv, 1).subrange(0, i as int) =~= spans_of(iv, 1).subrange(0, i - 1).push(
            spans_of(iv, 1)[i - 1],
        ));
        i += 1;
        assert(strings_view(keys@) =~= keys_of(b, iv, 1).subrange(0, i - 1));
        assert(spans@ =~= spans_of(iv, 1).subrange(0, i - 1));
    }
    assert(keys_of(b, iv, 1).subrange(0, i - 1) =~= keys_of(b, iv, 1));
    assert(spans_of(iv, 1).subrange(0, i - 1) =~= spans_of(iv, 1));
    (keys, spans)
}

/// The texts of the items from `from` on.
fn item_texts(items: &[Sexp], source: &str, from: usize) -> (r: Vec<String>)
    requires
        all_wf(source.spec_bytes(), items@),
        from <= items@.len(),
    ensures
        strings_view(r@) == keys_of(source.spec_bytes(), sexps_view(items@), from as int),
{
    let ghost b = source.spec_bytes();
    let ghost iv = sexps_view(items@);
    let mut keys: Vec<String> = Vec::new();
    let mut i: usize = from;
    while i < items.len()
        invariant
            iv == sexps_view(items@),
            b == source.spec_bytes(),
            all_wf(b, items@),
            from <= i <= items@.len(),
            strings_view(keys@) == keys_of(b, iv, from as int).subrange(0, i - from),
        decreases items@.len() - i,
    {
        assert(sexp_wf(b, items@[i as int]@));
        let t = items[i].as_text(source);
        assert(keys_of(b, iv, from as int)[i - from] == text_of(b, iv[i as int]));
        let ghost old_keys = keys@;
        keys.push(t);
        assert(strings_view(keys@) =~= strings_view(old_keys).push(t@));
        assert(keys_of(b, iv, from as int).subrange(0, i - from + 1) =~= keys_of(b, iv, from as int).subrange(0, i - from).push(
            keys_of(b, iv, from as int)[i - from],
        ));
        i += 1;
        assert(strings_view(keys@) =~= keys_of(b, iv, from as int).subrange(0, i - from));
    }
    assert(keys_of(b, iv, from as int).subrange(0, i - from) =~= keys_of(b, iv, from as int));
    keys
}

/// The view of an optional layer.
pub open spec fn opt_layer_view(o: Option<Layer>) -> Option<LayerV> {
    match o {
        Some(l) => Some(l@),
        None => None,
    }
}

/// The layer of `(deflayer NAME key ...)`, if `NAME` is an atom.
fn collect_deflayer(items: &[Sexp], source: &str, title: Option<String>, desc: Option<String>) -> (r:
    Option<Layer>)
    requires
        all_wf(source.spec_bytes(), items@),
    ensures
        opt_layer_view(r) == deflayer_of(
            source.spec_bytes(),
            sexps_view(items@),
            opt_view(title),
            opt_view(desc),
        ),
{
    if items.len() < 2 {
        return None;
    }
    let name = match items[1].as_atom() {
        Some(n) => n.to_owned(),
        None => {
            return None;
        },
    };
    let keys = item_texts(items, source, 2);
    Some(Layer::Full { name, keys, title, desc, deprecate: false })
}

/// The layer of `(deflayermap (NAME) key action ...)`.
fn collect_deflayermap(
    items: &[Sexp],
    source: &str,
    title: Option<String>,
    desc: Option<String>,
) -> (r: Option<Layer>)
    requires
        all_wf(source.spec_bytes(), items@),
    ensures
        opt_layer_view(r) == deflayermap_of(
            source.spec_bytes(),
            sexps_view(items@),
            opt_view(title),
            opt_view(desc),
        ),
{
    if items.len() < 2 {
        return None;
    }
    let name_list = &items[1];
    let name = match name_list {
        Sexp::List { items: ni, .. } => {
            proof {
                crate::sexpr::lemma_list_view(name_list);
            }
            if ni.len() == 0 {
                return None;
            }
            match ni[0].as_atom() {
                Some(n) => n.to_owned(),
                None => {
                    return None;
                },
            }
        },
        Sexp::Atom { text, .. } => text.clone(),
    };
    let ghost b = source.spec_bytes();
    let ghost iv = sexps_view(items@);
    let mut map = StrMap::new();
    let mut i: usize = 2;
    while items.len() - i > 1
        invariant
            iv == sexps_view(items@),
            b == source.spec_bytes(),
            all_wf(b, items@),
            2 <= i <= items@.len(),
            pairs_into(b, iv, i as nat, map@) == pairs_into(b, iv, 2, Map::empty()),
        decreases items@.len() - i,
    {
        assert(sexp_wf(b, items@[i + 1 as int]@));
        let key = items[i].as_atom();
        let action = items[i + 1].as_text(source);
        if let Some(key) = key {
            map.insert(key.to_owned(), action);
        }
        i += 2;
    }
    Some(Layer::Sparse { name, map, title, desc, deprecate: false })
}

/// The ranges that the last `defsrc` gives begin where characters start.
proof fn lemma_fold_src_spans(b: Seq<u8>, forms: Seq<SexpV>, n: nat)
    requires
        forall|k: int| 0 <= k < forms.len() ==> sexp_wf(b, #[trigger] forms[k]),
        b.len() <= usize::MAX,
    ensures
        fold_forms(b, forms, n).src matches Some(t) ==> forall|k: int|
            0 <= k < t.1.len() ==> at_char_start(b, #[trigger] t.1[k].start as int),
    decreases n,
{
    if n > 0 && n <= forms.len() {
        lemma_fold_src_spans(b, forms, (n - 1) as nat);
        let f = forms[n - 1];
        assert(sexp_wf(b, f));
        if let Some(head) = head_of(f) {
            if head == "defsrc"@ {
                let items = list_items(f);
                let sp = spans_of(items, 1);
                assert forall|k: int| 0 <= k < sp.len() implies at_char_start(
                    b,
                    #[trigger] sp[k].start as int,
                ) by {
                    assert(sexp_wf(b, items[k + 1]));
                    assert(sp[k].start == items[k + 1].start() as usize);
                }
            }
        }
    }
}

/// The exec state of `parse` matches the spec state `st`.
spec fn state_matches(
    st: ParseState,
    aliases: StrMap,
    src_keys: Option<Vec<String>>,
    src_spans: Option<Vec<Span>>,
    src_title: Option<String>,
    src_desc: Option<String>,
    layers: Seq<Layer>,
) -> bool {
    &&& aliases@ == st.aliases
    &&& layers_view(layers) == st.layers
    &&& match st.src {
        None => src_keys is None && src_spans is None && src_title is None && src_desc is None,
        Some(t) => {
            &&& src_keys matches Some(k) && strings_view(k@) == t.0
            &&& src_spans matches Some(sp) && sp@ == t.1
            &&& opt_view(src_title) == t.2
            &&& opt_view(src_desc) == t.3
        },
    }
}

/// Reads the configuration `source` for `platform`: the `defsrc` keys and
/// their grid, the aliases and the layers, with their comment titles and
/// descriptions. Forms may stand at any depth of matching
/// `(platform (X) ...)` forms.
pub fn parse(source: &str, platform: &str) -> (r: Result<Model, ParseError>)
    requires
        !lex_overruns(source@),
        source.spec_bytes().len() < usize::MAX,
    ensures
        match r {
            Ok(m) => parse_model(source.spec_bytes(), platform@) == Ok::<ModelV, LexError>(m@),
            Err(e) => exists|k: LexError|
                parse_model(source.spec_bytes(), platform@) == Err::<ModelV, LexError>(k) && e.0@
                    == lex_error_message(k),
        },
{
    let ghost b = source.spec_bytes();
    let sexps = match crate::sexpr::parse(source) {
        Ok(v) => v,
        Err(e) => {
            return Err(e);
        },
    };
    let ghost sv = sexps_view(sexps@);
    let mut forms: Vec<&Sexp> = Vec::new();
    walk_top(sexps.as_slice(), platform, &mut forms);
    let ghost fv = walk(sv, platform@);
    assert(refs_view(forms@) =~= fv);
    proof {
        assert forall|k: int| 0 <= k < sv.len() implies sexp_wf(b, #[trigger] sv[k]) by {
            assert(sexp_wf(b, sexps@[k]@));
        }
        lemma_walk_wf(b, sv, platform@);
    }
    let mut aliases = StrMap::new();
    let mut src_keys: Option<Vec<String>> = None;
    let mut src_spans: Option<Vec<Span>> = None;
    let mut src_title: Option<String> = None;
    let mut src_desc: Option<String> = None;
    let mut layers: Vec<Layer> = Vec::new();
    let mut i: usize = 0;
    assert(layers_view(layers@) =~= Seq::<LayerV>::empty());
    while i < forms.len()
        invariant
            b == source.spec_bytes(),
            refs_view(forms@) == fv,
            forall|k: int| 0 <= k < fv.len() ==> sexp_wf(b, #[trigger] fv[k]),
            i <= forms@.len(),
            state_matches(
                fold_forms(b, fv, i as nat),
                aliases,
                src_keys,
                src_spans,
                src_title,
                src_desc,
                layers@,
            ),
        decreases forms@.len() - i,
    {
        let form = forms[i];
        assert(form@ == fv[i as int]);
        let ghost st = fold_forms(b, fv, i as nat);
        assert(fold_forms(b, fv, (i + 1) as nat) == step(b, st, fv[i as int]));
        if let Sexp::List { items, span } = form {
            proof {
                crate::sexpr::lemma_list_view(form);
                assert(sexp_wf(b, fv[i as int]));
                assert forall|k: int| 0 <= k < items@.len() implies sexp_wf(
                    b,
                    #[trigger] items@[k]@,
                ) by {
                    assert(sexps_view(items@)[k] == items@[k]@);
                }
            }
            if items.len() > 0 {
                if let Sexp::Atom { text: head, .. } = &items[0] {
                    assert(head_of(form@) == Some(head@));
                    let (title, desc) = extract_meta(source, span.start);
                    if str_eq(head.as_str(), "defalias") {
                        collect_aliases(items.as_slice(), source, &mut aliases);
                    } else if str_eq(head.as_str(), "defsrc") {
                        let (keys, spans) = collect_src(items.as_slice(), source);
                        src_keys = Some(keys);
                        src_spans = Some(spans);
                        src_title = title;
                        src_desc = desc;
                    } else if str_eq(head.as_str(), "deflayer") {
                        let ghost old_layers = layers@;
                        if let Some(layer) = collect_deflayer(items.as_slice(), source, title, desc) {
                            layers.push(layer);
                            assert(layers_view(layers@) =~= layers_view(old_layers).push(layer@));
                        }
                    } else if str_eq(head.as_str(), "deflayermap") {
                        let ghost old_layers = layers@;
                        if let Some(layer) = collect_deflayermap(
                            items.as_slice(),
                            source,
                            title,
                            desc,
                        ) {
                            layers.push(layer);
                            assert(layers_view(layers@) =~= layers_view(old_layers).push(layer@));
                        }
                    }
                }
            }
        }
        i = i + 1;
    }
    assert(fv.len() == forms@.len());
    let ghost st = fold_forms(b, fv, fv.len());
    let keys = match src_keys {
        Some(k) => k,
        None => Vec::new(),
    };
    let spans = match src_spans {
        Some(s) => s,
        None => Vec::new(),
    };
    assert(strings_view(keys@) =~= model_of(b, fv).src.keys);
    assert(spans@ =~= (match st.src { Some(t) => t.1, None => Seq::<Span>::empty() }));
    proof {
        lemma_fold_src_spans(b, fv, fv.len());
    }
    let layout = compute_layout(source, spans.as_slice());
    Ok(
        Model {
            src: DefSrc { keys, layout, title: src_title, desc: src_desc },
            aliases,
            layers,
        },
    )
}


/// A `(platform (X) ...)` form reads as the forms inside it when `X` is the
/// platform asked for, and as nothing for any other platform.
pub proof fn law_platform_branch(f: SexpV, rest: Seq<SexpV>, platform: Seq<char>)
    requires
        head_of(f) == Some("platform"@),
    ensures
        (list_items(f).len() > 1 && head_of(list_items(f)[1]) == Some(platform)) ==> walk(
            seq![f] + rest,
            platform,
        ) == walk(list_items(f).subrange(2, list_items(f).len() as int), platform) + walk(
            rest,
            platform,
        ),
        !(list_items(f).len() > 1 && head_of(list_items(f)[1]) == Some(platform)) ==> walk(
            seq![f] + rest,
            platform,
        ) == walk(rest, platform),
{
    let items = seq![f] + rest;
    assert(items[0] == f);
    assert(items.drop_first() =~= rest);
}


proof fn lemma_fold_src(b: Seq<u8>, forms: Seq<SexpV>, n: nat)
    ensures
        fold_forms(b, forms, n).src matches Some(s) ==> s.0.len() == s.1.len(),
    decreases n,
{
    if n > 0 && n <= forms.len() {
        lemma_fold_src(b, forms, (n - 1) as nat);
        let f = forms[n - 1];
        if head_of(f) == Some("defsrc"@) {
            let items = list_items(f);
            assert(keys_of(b, items, 1).len() == spans_of(items, 1).len());
        }
    }
}

/// A read configuration has one grid cell per `defsrc` key; with no keys
/// the grid is empty.
pub proof fn law_parse_one_cell_per_key(b: Seq<u8>, platform: Seq<char>)
    ensures
        parse_model(b, platform) matches Ok(m) ==> {
            &&& m.src.layout.cells.len() == m.src.keys.len()
            &&& m.src.keys.len() == 0 ==> m.src.layout.n_rows == 0 && m.src.layout.n_cols == 0
        },
{
    if let Ok(sexps) = lex(b) {
        let forms = walk(sexps, platform);
        lemma_fold_src(b, forms, forms.len());
        let st = fold_forms(b, forms, forms.len());
        let spans = match st.src {
            Some(s) => s.1,
            None => seq![],
        };
        assert(key_positions(b, spans).len() == spans.len());
    }
}


/// The last `defsrc` form among the first `n` forms, if any.
pub open spec fn last_defsrc(forms: Seq<SexpV>, n: nat) -> Option<SexpV>
    decreases n,
{
    if n == 0 || n > forms.len() {
        None
    } else if head_of(forms[n - 1]) == Some("defsrc"@) {
        Some(forms[n - 1])
    } else {
        last_defsrc(forms, (n - 1) as nat)
    }
}

/// What the `defsrc` form `f` gives: the texts of its items after the head,
/// their ranges, and the title and description of the comments above it.
pub open spec fn defsrc_parts(b: Seq<u8>, f: SexpV) -> (
    Seq<Seq<char>>,
    Seq<Span>,
    Option<Seq<char>>,
    Option<Seq<char>>,
) {
    let meta = meta_of(prefix_chars(b, f.start()));
    (keys_of(b, list_items(f), 1), spans_of(list_items(f), 1), meta.0, meta.1)
}

proof fn lemma_fold_last_defsrc(b: Seq<u8>, forms: Seq<SexpV>, n: nat)
    ensures
        fold_forms(b, forms, n).src == match last_defsrc(forms, n) {
            Some(f) => Some(defsrc_parts(b, f)),
            None => None,
        },
    decreases n,
{
    if n > 0 && n <= forms.len() {
        lemma_fold_last_defsrc(b, forms, (n - 1) as nat);
        let prev = fold_forms(b, forms, (n - 1) as nat);
        let f = forms[n - 1];
        assert(fold_forms(b, forms, n) == step(b, prev, f));
        if head_of(f) == Some("defsrc"@) {
            reveal_strlit("defsrc");
            reveal_strlit("defalias");
            assert("defsrc"@.len() != "defalias"@.len());
            assert(step(b, prev, f).src == Some(defsrc_parts(b, f)));
        } else {
            assert(step(b, prev, f).src == prev.src);
        }
    }
}

/// A read configuration's `defsrc` is the last `defsrc` form read (platform
/// branches applied): its keys are the texts of that form's items after the
/// head, its grid is the layout of their ranges, and its title and
/// description come from the comments above it. With no `defsrc` there are
/// no keys and the grid is empty.
pub proof fn law_parse_defsrc(b: Seq<u8>, platform: Seq<char>)
    ensures
        match lex(b) {
            Ok(sexps) => {
                let forms = walk(sexps, platform);
                &&& parse_model(b, platform) == Ok::<ModelV, LexError>(model_of(b, forms))
                &&& match last_defsrc(forms, forms.len()) {
                    Some(f) => {
                        let parts = defsrc_parts(b, f);
                        &&& model_of(b, forms).src.keys == parts.0
                        &&& model_of(b, forms).src.layout == layout_of(b, parts.1)
                        &&& model_of(b, forms).src.title == parts.2
                        &&& model_of(b, forms).src.desc == parts.3
                    },
                    None => {
                        &&& model_of(b, forms).src.keys.len() == 0
                        &&& model_of(b, forms).src.layout.cells.len() == 0
                        &&& model_of(b, forms).src.layout.n_rows == 0
                        &&& model_of(b, forms).src.layout.n_cols == 0
                    },
                }
            },
            Err(e) => parse_model(b, platform) == Err::<ModelV, LexError>(e),
        },
{
    if let Ok(sexps) = lex(b) {
        let forms = walk(sexps, platform);
        lemma_fold_last_defsrc(b, forms, forms.len());
        assert(key_positions(b, seq![]).len() == 0);
    }
}


/// Pair `k` (counted from `i` in steps of two) is followed by no later pair
/// whose name is `n`.
pub open spec fn no_later_pair_named(items: Seq<SexpV>, i: nat, k: int, n: Seq<char>) -> bool {
    forall|j: int|
        k < j && j + 1 < items.len() && (j - i) % 2 == 0 ==> #[trigger] atom_text(items[j]) != Some(
            n,
        )
}

/// Every `name value` pair is read, not only the first: for
/// `(defalias n1 v1 ... nk vk)` or `(deflayermap (L) k1 a1 ...)`, a pair
/// whose name is an atom maps that name to the text of its value, unless a
/// later pair names it again.
pub proof fn law_every_pair_read(
    b: Seq<u8>,
    items: Seq<SexpV>,
    i: nat,
    m: Map<Seq<char>, Seq<char>>,
    k: int,
    n: Seq<char>,
)
    requires
        i <= k,
        (k - i) % 2 == 0,
        k + 1 < items.len(),
        atom_text(items[k]) == Some(n),
        no_later_pair_named(items, i, k, n),
    ensures
        pairs_into(b, items, i, m).contains_key(n),
        pairs_into(b, items, i, m)[n] == text_of(b, items[k + 1]),
    decreases items.len() - i,
{
    let m2 = match atom_text(items[i as int]) {
        Some(x) => m.insert(x, text_of(b, items[i + 1 as int])),
        None => m,
    };
    if k == i {
        lemma_pairs_keep(b, items, i + 2, m2, n);
    } else {
        assert forall|j: int|
            k < j && j + 1 < items.len() && (j - (i + 2)) % 2 == 0 implies #[trigger] atom_text(
            items[j],
        ) != Some(n) by {
            assert((j - i) % 2 == 0);
        }
        law_every_pair_read(b, items, i + 2, m2, k, n);
    }
}

/// A name that no pair from `i` on names keeps the value it had.
proof fn lemma_pairs_keep(b: Seq<u8>, items: Seq<SexpV>, i: nat, m: Map<Seq<char>, Seq<char>>, n: Seq<char>)
    requires
        forall|j: int|
            i <= j && j + 1 < items.len() && (j - i) % 2 == 0 ==> #[trigger] atom_text(items[j])
                != Some(n),
    ensures
        pairs_into(b, items, i, m).contains_key(n) == m.contains_key(n),
        m.contains_key(n) ==> pairs_into(b, items, i, m)[n] == m[n],
    decreases items.len() - i,
{
    if i + 1 < items.len() {
        let m2 = match atom_text(items[i as int]) {
            Some(x) => m.insert(x, text_of(b, items[i + 1 as int])),
            None => m,
        };
        assert(atom_text(items[i as int]) != Some(n));
        assert forall|j: int|
            i + 2 <= j && j + 1 < items.len() && (j - (i + 2)) % 2 == 0 implies #[trigger] atom_text(
            items[j],
        ) != Some(n) by {
            assert((j - i) % 2 == 0);
        }
        lemma_pairs_keep(b, items, i + 2, m2, n);
    }
}

/// The text after `;;` of a comment line, with leading whitespace dropped;
/// `None` for a line that is not a `;;` comment.
pub open spec fn comment_body(l: Seq<char>) -> Option<Seq<char>> {
    let t = trim_start(l);
    if starts_with(t, ";;"@) {
        Some(trim_start(t.skip(2)))
    } else {
        None
    }
}

/// The line is a `;; desc:` comment.
pub open spec fn is_desc_line(l: Seq<char>) -> bool {
    comment_body(l) matches Some(r) && starts_with(r, "desc:"@)
}

/// The line is a `;; name:` comment.
pub open spec fn is_name_line(l: Seq<char>) -> bool {
    comment_body(l) matches Some(r) && starts_with(r, "name:"@)
}

proof fn lemma_scan_keeps_desc(lines: Seq<Seq<char>>, k: nat, t: Option<Seq<char>>, d: Seq<char>)
    ensures
        meta_scan(lines, k, t, Some(d)).1 == Some(d),
    decreases k,
{
    if k > 0 && k <= lines.len() {
        let l = trim_start(lines[k - 1]);
        if starts_with(l, ";;"@) {
            let r = trim_start(l.skip(2));
            let t2 = if t is None {
                Some(trim(r.skip(5)))
            } else {
                t
            };
            lemma_scan_keeps_desc(lines, (k - 1) as nat, t2, d);
            lemma_scan_keeps_desc(lines, (k - 1) as nat, t, d);
        }
    }
}

proof fn lemma_scan_keeps_title(lines: Seq<Seq<char>>, k: nat, t: Seq<char>, d: Option<Seq<char>>)
    ensures
        meta_scan(lines, k, Some(t), d).0 == Some(t),
    decreases k,
{
    if k > 0 && k <= lines.len() {
        let l = trim_start(lines[k - 1]);
        if starts_with(l, ";;"@) {
            let r = trim_start(l.skip(2));
            lemma_scan_keeps_title(lines, (k - 1) as nat, t, d);
            lemma_scan_keeps_title(lines, (k - 1) as nat, t, Some(trim(r.skip(5))));
        }
    }
}

proof fn lemma_name_desc_differ(r: Seq<char>)
    ensures
        !(starts_with(r, "name:"@) && starts_with(r, "desc:"@)),
{
    reveal_strlit("name:");
    reveal_strlit("desc:");
    if starts_with(r, "name:"@) && starts_with(r, "desc:"@) {
        assert(r.subrange(0, 5)[0] == 'n');
        assert(r.subrange(0, 5)[0] == 'd');
    }
}

/// In the run of `;;` comment lines right above a form, the nearest
/// `;; desc:` line gives the description, whatever `name:` lines stand
/// between it and the form or around it: a `desc:` line above a `name:`
/// line is still read.
pub proof fn law_meta_desc_any_order(lines: Seq<Seq<char>>, k: nat, j: int, t: Option<Seq<char>>)
    requires
        k <= lines.len(),
        0 <= j < k,
        forall|m: int| j <= m < k ==> (#[trigger] comment_body(lines[m])) is Some,
        is_desc_line(lines[j]),
        forall|m: int| j < m < k ==> !is_desc_line(#[trigger] lines[m]),
    ensures
        meta_scan(lines, k, t, None).1 == Some(trim(comment_body(lines[j])->0.skip(5))),
    decreases k,
{
    let l = trim_start(lines[k - 1]);
    assert(comment_body(lines[k - 1]) is Some);
    let r = trim_start(l.skip(2));
    lemma_name_desc_differ(r);
    let t2 = if t is None {
        Some(trim(r.skip(5)))
    } else {
        t
    };
    if k - 1 == j {
        lemma_scan_keeps_desc(lines, (k - 1) as nat, t, trim(r.skip(5)));
    } else {
        assert(!is_desc_line(lines[k - 1]));
        law_meta_desc_any_order(lines, (k - 1) as nat, j, t);
        law_meta_desc_any_order(lines, (k - 1) as nat, j, t2);
    }
}

/// In the run of `;;` comment lines right above a form, the nearest
/// `;; name:` line gives the title, whatever `desc:` lines stand between it
/// and the form or around it.
pub proof fn law_meta_name_any_order(lines: Seq<Seq<char>>, k: nat, j: int, d: Option<Seq<char>>)
    requires
        k <= lines.len(),
        0 <= j < k,
        forall|m: int| j <= m < k ==> (#[trigger] comment_body(lines[m])) is Some,
        is_name_line(lines[j]),
        forall|m: int| j < m < k ==> !is_name_line(#[trigger] lines[m]),
    ensures
        meta_scan(lines, k, None, d).0 == Some(trim(comment_body(lines[j])->0.skip(5))),
    decreases k,
{
    let l = trim_start(lines[k - 1]);
    assert(comment_body(lines[k - 1]) is Some);
    let r = trim_start(l.skip(2));
    if k - 1 == j {
        lemma_scan_keeps_title(lines, (k - 1) as nat, trim(r.skip(5)), d);
    } else {
        assert(!is_name_line(lines[k - 1]));
        law_meta_name_any_order(lines, (k - 1) as nat, j, d);
        if d is None {
            law_meta_name_any_order(lines, (k - 1) as nat, j, Some(trim(r.skip(5))));
        }
    }
}


/// Reading a `(defalias n1 v1 ... nk vk)` form defines every alias it
/// names with an atom: each such name maps to the text of its value, unless
/// a later pair of the form names it again.
pub proof fn law_defalias_defines_every_pair(b: Seq<u8>, st: ParseState, f: SexpV, k: int, n: Seq<char>)
    requires
        head_of(f) == Some("defalias"@),
        1 <= k,
        (k - 1) % 2 == 0,
        k + 1 < list_items(f).len(),
        atom_text(list_items(f)[k]) == Some(n),
        no_later_pair_named(list_items(f), 1, k, n),
    ensures
        step(b, st, f).aliases.contains_key(n),
        step(b, st, f).aliases[n] == text_of(b, list_items(f)[k + 1]),
{
    law_every_pair_read(b, list_items(f), 1, st.aliases, k, n);
}

/// Reading a `(deflayermap (L) k1 a1 ... kk ak)` form gives a layer whose
/// map sends every key named by an atom to the text of its action, unless
/// a later pair names the key again.
pub proof fn law_deflayermap_maps_every_pair(
    b: Seq<u8>,
    items: Seq<SexpV>,
    title: Option<Seq<char>>,
    desc: Option<Seq<char>>,
    k: int,
    n: Seq<char>,
)
    requires
        deflayermap_of(b, items, title, desc) is Some,
        2 <= k,
        (k - 2) % 2 == 0,
        k + 1 < items.len(),
        atom_text(items[k]) == Some(n),
        no_later_pair_named(items, 2, k, n),
    ensures
        deflayermap_of(b, items, title, desc)->0->map.contains_key(n),
        deflayermap_of(b, items, title, desc)->0->map[n] == text_of(b, items[k + 1]),
{
    law_every_pair_read(b, items, 2, Map::empty(), k, n);
}

} // verus!

