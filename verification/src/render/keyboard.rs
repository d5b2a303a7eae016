//! Key cells and the grid of a keyboard, and how tokens become key cells.
use vstd::prelude::*;
use vstd::string::*;
use std::sync::Arc;
use crate::display::{DisplayResultV, default_display, token_readable};
use crate::layout::{GridLayout, GridPos};
use crate::render::{lemma_key_svg, svg_inner, svg_inner_spec};
use crate::text::{
    decimal, push_char, push_decimal, starts_with, string_of, to_chars, trim, trim_bounds,
};

pub use crate::display::{DisplayContext, extract_raw_string_content};

verus! {

// ---------------------------------------------------------------------------
// KeyCell & KeyboardRenderer
// ---------------------------------------------------------------------------

/// One key: its text, an optional tooltip, CSS classes, and whether it
/// only passes the `defsrc` key through.
pub struct KeyCell {
    pub text: String,
    pub tooltip: Option<String>,
    pub extra_classes: Vec<String>,
    pub passthrough: bool,
}

/// What a `KeyCell` is.
pub struct KeyCellV {
    pub text: Seq<char>,
    pub tooltip: Option<Seq<char>>,
    pub extra_classes: Seq<Seq<char>>,
    pub passthrough: bool,
}

impl View for KeyCell {
    type V = KeyCellV;

    open spec fn view(&self) -> KeyCellV {
        KeyCellV {
            text: self.text@,
            tooltip: match self.tooltip {
                Some(t) => Some(t@),
                None => None,
            },
            extra_classes: self.extra_classes@.map_values(|c: String| c@),
            passthrough: self.passthrough,
        }
    }
}

/// `&`, `<`, `>` and `"` as HTML entities.
pub open spec fn esc_char(c: char) -> Seq<char> {
    if c == '&' {
        "&amp;"@
    } else if c == '<' {
        "&lt;"@
    } else if c == '>' {
        "&gt;"@
    } else if c == '"' {
        "&quot;"@
    } else {
        seq![c]
    }
}

/// `s` with `&`, `<`, `>` and `"` written as HTML entities.
pub open spec fn esc_spec(s: Seq<char>) -> Seq<char>
    decreases s.len(),
{
    if s.len() == 0 {
        seq![]
    } else {
        esc_spec(s.drop_last()) + esc_char(s.last())
    }
}

/// Each class followed by a space.
pub open spec fn classes_text(classes: Seq<Seq<char>>) -> Seq<char>
    decreases classes.len(),
{
    if classes.len() == 0 {
        seq![]
    } else {
        classes_text(classes.drop_last()) + classes.last() + seq![' ']
    }
}

/// The class attribute of a key after `key `: its classes and `passthrough`, trimmed.
pub open spec fn class_attr(c: KeyCellV) -> Seq<char> {
    trim(
        classes_text(c.extra_classes) + if c.passthrough {
            "passthrough"@
        } else {
            seq![]
        },
    )
}

/// The HTML of the key `c` in grid row `row` (counted from 0), spanning
/// `span` grid columns.
pub open spec fn key_html(c: KeyCellV, row: nat, span: nat) -> Seq<char> {
    "<div class=\"key "@ + class_attr(c) + "\" style=\"grid-row: "@ + decimal(row + 1)
        + "; grid-column: span "@ + decimal(span) + ";\">"@
        + "<svg class=\"key-bg\" xmlns=\"http://www.w3.org/2000/svg\" viewBox=\"0 0 100 100\" preserveAspectRatio=\"none\">"@
        + svg_inner_spec(crate::svgs::KEY@) + "</svg>"@ + "<span class=\"label\">"@ + esc_spec(c.text)
        + "</span>"@ + match c.tooltip {
        Some(t) => "<span class=\"tooltip\">"@ + esc_spec(t) + "</span>"@,
        None => seq![],
    } + "</div>"@
}

impl KeyCell {
    /// The HTML of this key, placed in the row of `pos` and as wide as its span.
    pub fn build_html(self, pos: &GridPos) -> (r: String)
        requires
            pos.row < usize::MAX,
        ensures
            r@ == key_html(self@, pos.row as nat, pos.span as nat),
    {
        let ghost c = self@;
        let mut ret = String::new();
        let KeyCell { text, tooltip, extra_classes, passthrough } = self;
        let mut classes = String::new();
        let mut i: usize = 0;
        while i < extra_classes.len()
            invariant
                i <= extra_classes@.len(),
                c.extra_classes == extra_classes@.map_values(|c: String| c@),
                classes@ == classes_text(c.extra_classes.subrange(0, i as int)),
            decreases extra_classes@.len() - i,
        {
            classes.append(extra_classes[i].as_str());
            push_char(&mut classes, ' ');
            assert(c.extra_classes.subrange(0, i + 1).drop_last() =~= c.extra_classes.subrange(
                0,
                i as int,
            ));
            i = i + 1;
        }
        assert(c.extra_classes.subrange(0, i as int) =~= c.extra_classes);
        if passthrough {
            classes.append("passthrough");
        } else {
            assert(classes@ =~= classes@ + Seq::<char>::empty());
        }
        let cv = to_chars(classes.as_str());
        let (a, b) = trim_bounds(&cv, 0, cv.len());
        assert(cv@.subrange(0, cv@.len() as int) =~= cv@);
        let trimmed = string_of(&cv, a, b);
        ret.append("<div class=\"key ");
        ret.append(trimmed.as_str());
        ret.append("\" style=\"grid-row: ");
        push_decimal(&mut ret, pos.row + 1);
        ret.append("; grid-column: span ");
        push_decimal(&mut ret, pos.span);
        ret.append(";\">");
        ret.append(
            "<svg class=\"key-bg\" xmlns=\"http://www.w3.org/2000/svg\" viewBox=\"0 0 100 100\" preserveAspectRatio=\"none\">",
        );
        proof {
            lemma_key_svg();
        }
        let inner = svg_inner(crate::svgs::KEY);
        ret.append(inner.as_str());
        ret.append("</svg>");
        ret.append("<span class=\"label\">");
        let label = esc(text.as_str());
        ret.append(label.as_str());
        ret.append("</span>");
        let ghost before_tip = ret@;
        match &tooltip {
            Some(tip) => {
                ret.append("<span class=\"tooltip\">");
                let t = esc(tip.as_str());
                ret.append(t.as_str());
                ret.append("</span>");
            },
            None => {},
        }
        ret.append("</div>");
        assert(ret@ =~= key_html(c, pos.row as nat, pos.span as nat));
        ret
    }
}

/// The grid of a keyboard: its key cells, placed by the layout.
pub struct KeyboardRenderer {
    pub keys: Vec<KeyCell>,
    pub layout: Arc<GridLayout>,
}

/// The HTML of the first `n` keys that the layout has a cell for.
pub open spec fn cells_html(keys: Seq<KeyCellV>, cells: Seq<GridPos>, n: nat) -> Seq<char>
    decreases n,
{
    if n == 0 {
        seq![]
    } else {
        cells_html(keys, cells, (n - 1) as nat) + if n - 1 < cells.len() {
            key_html(keys[n - 1], cells[n - 1].row as nat, cells[n - 1].span as nat)
        } else {
            seq![]
        }
    }
}

/// The HTML of a grid of the keys `keys` placed at `cells`; keys beyond the
/// cells are left out.
pub open spec fn grid_html(keys: Seq<KeyCellV>, cells: Seq<GridPos>) -> Seq<char> {
    "<div class=\"grid\">"@ + cells_html(keys, cells, keys.len()) + "</div>"@
}

/// The views of key cells.
pub open spec fn cells_view(v: Seq<KeyCell>) -> Seq<KeyCellV> {
    v.map_values(|c: KeyCell| c@)
}

/// All rows of the layout can be numbered from 1 in a `usize`.
pub open spec fn rows_fit(cells: Seq<GridPos>) -> bool {
    forall|k: int| 0 <= k < cells.len() ==> (#[trigger] cells[k]).row < usize::MAX
}

impl KeyboardRenderer {
    /// The HTML of the grid.
    pub fn build_html(self) -> (r: String)
        requires
            rows_fit(self.layout.cells@),
        ensures
            r@ == grid_html(cells_view(self.keys@), self.layout.cells@),
    {
        let ghost kv = cells_view(self.keys@);
        let mut ret = String::new();
        let KeyboardRenderer { keys, layout } = self;
        ret.append("<div class=\"grid\">");
        let ghost start = ret@;
        let ghost cells = layout.cells@;
        let n = keys.len();
        let mut i: usize = 0;
        for cell in it: keys.into_iter()
            invariant
                kv == cells_view(it.seq()),
                it.seq().len() == n,
                cells == layout.cells@,
                rows_fit(cells),
                i == it.index(),
                ret@ == start + cells_html(kv, cells, i as nat),
        {
            assert(cell@ == kv[i as int]);
            if i < layout.cells.len() {
                let grid_pos = &layout.cells[i];
                let h = cell.build_html(grid_pos);
                ret.append(h.as_str());
            }
            i = i + 1;
        }
        ret.append("</div>");
        ret
    }
}

/// `s` with `&`, `<`, `>` and `"` written as HTML entities.
pub fn esc(s: &str) -> (r: String)
    ensures
        r@ == esc_spec(s@),
{
    let v = to_chars(s);
    let mut out = String::new();
    let mut i: usize = 0;
    while i < v.len()
        invariant
            i <= v@.len(),
            v@ == s@,
            out@ == esc_spec(v@.subrange(0, i as int)),
        decreases v@.len() - i,
    {
        let c = v[i];
        if c == '&' {
            out.append("&amp;");
        } else if c == '<' {
            out.append("&lt;");
        } else if c == '>' {
            out.append("&gt;");
        } else if c == '"' {
            out.append("&quot;");
        } else {
            push_char(&mut out, c);
        }
        assert(v@.subrange(0, i + 1).drop_last() =~= v@.subrange(0, i as int));
        i = i + 1;
    }
    assert(v@.subrange(0, i as int) =~= s@);
    out
}

// ---------------------------------------------------------------------------
// KeyDataProcessor trait & default implementation
// ---------------------------------------------------------------------------

/// The key cell that shows a display result.
pub open spec fn cell_of_display(d: DisplayResultV) -> KeyCellV {
    KeyCellV { text: d.label, tooltip: d.tooltip, extra_classes: d.classes, passthrough: false }
}

/// The way tokens become key cells; implement it to show keys otherwise.
pub trait KeyDataProcessor {
    /// What `process` gives for `token`, with the aliases `aliases`.
    spec fn spec_process(&self, token: Seq<char>, aliases: Map<Seq<char>, Seq<char>>) -> KeyCellV;

    fn process(&self, token: &str, ctx: &DisplayContext) -> (r: KeyCell)
        requires
            token_readable(token@),
        ensures
            r@ == self.spec_process(token@, ctx.aliases@),
    ;
}

/// Turns tokens into key cells as `default_display` shows them.
pub struct DefaultKeyDataProcessor;

fn owned_classes(classes: &Vec<&'static str>) -> (r: Vec<String>)
    ensures
        r@.map_values(|c: String| c@) == classes@.map_values(|c: &str| c@),
{
    let mut r: Vec<String> = Vec::new();
    let mut i: usize = 0;
    while i < classes.len()
        invariant
            i <= classes@.len(),
            r@.map_values(|c: String| c@) == classes@.map_values(|c: &str| c@).subrange(0, i as int),
        decreases classes@.len() - i,
    {
        let ghost old_r = r@;
        let c = classes[i].to_owned();
        assert(c@ == classes@[i as int]@);
        r.push(c);
        assert(r@.map_values(|c: String| c@) =~= old_r.map_values(|c: String| c@).push(c@));
        i = i + 1;
        assert(r@.map_values(|c: String| c@) =~= classes@.map_values(|c: &str| c@).subrange(
            0,
            i as int,
        ));
    }
    assert(classes@.map_values(|c: &str| c@).subrange(0, i as int) =~= classes@.map_values(
        |c: &str| c@,
    ));
    r
}

impl KeyDataProcessor for DefaultKeyDataProcessor {
    open spec fn spec_process(&self, token: Seq<char>, aliases: Map<Seq<char>, Seq<char>>) -> KeyCellV {
        cell_of_display(default_display(token, aliases))
    }

    fn process(&self, token: &str, ctx: &DisplayContext) -> (r: KeyCell) {
        let v = to_chars(token);
        if v.len() > 0 && v[0] == '@' {
            let name = string_of(&v, 1, v.len());
            assert(v@.subrange(1, v@.len() as int) =~= token@.drop_first());
            let tooltip = match ctx.aliases.get(name.as_str()) {
                Some(t) => Some(t.clone()),
                None => None,
            };
            let r = KeyCell {
                text: token.to_owned(),
                tooltip,
                extra_classes: vec!["alias".to_owned()],
                passthrough: false,
            };
            assert(r@.extra_classes =~= seq!["alias"@]);
            return r;
        }
        if v.len() > 0 && v[0] == '(' {
            if let Some(res) = display_sexpr(token) {
                return res;
            }
            let r = KeyCell {
                text: token.to_owned(),
                tooltip: None,
                extra_classes: vec!["sexpr".to_owned()],
                passthrough: false,
            };
            assert(r@.extra_classes =~= seq!["sexpr"@]);
            return r;
        }
        let r = KeyCell {
            text: token.to_owned(),
            tooltip: None,
            extra_classes: Vec::new(),
            passthrough: false,
        };
        assert(r@.extra_classes =~= Seq::<Seq<char>>::empty());
        r
    }
}

/// The key cell of a `(...)` token, if it reads as a list with an atom head.
fn display_sexpr(token: &str) -> (r: Option<KeyCell>)
    requires
        crate::display::token_readable(token@),
        token@.len() > 0 && token@[0] == '(',
    ensures
        match crate::display::sexpr_display(token@) {
            Some((label, classes)) => r matches Some(c) && c@ == cell_of_display(
                DisplayResultV { label, tooltip: None, classes },
            ),
            None => r is None,
        },
{
    match crate::display::display_sexpr(token) {
        Some(d) => {
            let classes = owned_classes(&d.classes);
            Some(KeyCell { text: d.label, tooltip: d.tooltip, extra_classes: classes, passthrough: false })
        },
        None => None,
    }
}


// ---------------------------------------------------------------------------
// What escaping guarantees
// ---------------------------------------------------------------------------

/// Escaped text holds no `<`, `>` or `"`: shown inside an element or an
/// attribute, it can neither open nor close a tag or the attribute.
pub proof fn law_esc_no_markup(s: Seq<char>)
    ensures
        forall|k: int|
            0 <= k < esc_spec(s).len() ==> #[trigger] esc_spec(s)[k] != '<' && esc_spec(s)[k]
                != '>' && esc_spec(s)[k] != '"',
    decreases s.len(),
{
    if s.len() > 0 {
        law_esc_no_markup(s.drop_last());
        reveal_strlit("&amp;");
        reveal_strlit("&lt;");
        reveal_strlit("&gt;");
        reveal_strlit("&quot;");
        let p = esc_spec(s.drop_last());
        let q = esc_char(s.last());
        assert forall|k: int| 0 <= k < esc_spec(s).len() implies #[trigger] esc_spec(s)[k] != '<'
            && esc_spec(s)[k] != '>' && esc_spec(s)[k] != '"' by {
            if k >= p.len() {
                assert(esc_spec(s)[k] == q[k - p.len()]);
            } else {
                assert(esc_spec(s)[k] == p[k]);
            }
        }
    }
}

/// Text without `&`, `<`, `>` or `"` is shown unchanged.
pub proof fn law_esc_plain(s: Seq<char>)
    requires
        forall|k: int|
            0 <= k < s.len() ==> #[trigger] s[k] != '&' && s[k] != '<' && s[k] != '>' && s[k]
                != '"',
    ensures
        esc_spec(s) == s,
    decreases s.len(),
{
    if s.len() > 0 {
        law_esc_plain(s.drop_last());
        assert(s.last() == s[s.len() - 1]);
        assert(s.drop_last().push(s.last()) =~= s);
    }
}


/// Reads HTML entities back, in one pass from the left: `&lt;`, `&gt;`,
/// `&quot;` and `&amp;` become `<`, `>`, `"` and `&`.
pub open spec fn unescape_spec(s: Seq<char>) -> Seq<char>
    decreases s.len(),
{
    if s.len() == 0 {
        seq![]
    } else if starts_with(s, seq!['&', 'l', 't', ';']) {
        seq!['<'] + unescape_spec(s.subrange(4, s.len() as int))
    } else if starts_with(s, seq!['&', 'g', 't', ';']) {
        seq!['>'] + unescape_spec(s.subrange(4, s.len() as int))
    } else if starts_with(s, seq!['&', 'q', 'u', 'o', 't', ';']) {
        seq!['"'] + unescape_spec(s.subrange(6, s.len() as int))
    } else if starts_with(s, seq!['&', 'a', 'm', 'p', ';']) {
        seq!['&'] + unescape_spec(s.subrange(5, s.len() as int))
    } else {
        seq![s[0]] + unescape_spec(s.drop_first())
    }
}

proof fn lemma_esc_front(c: char, t: Seq<char>)
    ensures
        esc_spec(seq![c] + t) == esc_char(c) + esc_spec(t),
    decreases t.len(),
{
    if t.len() == 0 {
        assert((seq![c] + t).drop_last() =~= Seq::<char>::empty());
        assert(esc_spec(Seq::<char>::empty()) =~= Seq::<char>::empty());
        assert(esc_char(c) + esc_spec(t) =~= esc_char(c));
    } else {
        lemma_esc_front(c, t.drop_last());
        assert((seq![c] + t).drop_last() =~= seq![c] + t.drop_last());
        assert((seq![c] + t).last() == t.last());
        assert(esc_char(c) + esc_spec(t) =~= esc_char(c) + esc_spec(t.drop_last()) + esc_char(
            t.last(),
        ));
    }
}

proof fn lemma_unescape_char(c: char, rest: Seq<char>)
    ensures
        unescape_spec(esc_char(c) + rest) == seq![c] + unescape_spec(rest),
{
    reveal_strlit("&amp;");
    reveal_strlit("&lt;");
    reveal_strlit("&gt;");
    reveal_strlit("&quot;");
    let s = esc_char(c) + rest;
    assert("&amp;"@ =~= seq!['&', 'a', 'm', 'p', ';']);
    assert("&lt;"@ =~= seq!['&', 'l', 't', ';']);
    assert("&gt;"@ =~= seq!['&', 'g', 't', ';']);
    assert("&quot;"@ =~= seq!['&', 'q', 'u', 'o', 't', ';']);
    if c == '<' {
        assert(starts_with(s, seq!['&', 'l', 't', ';'])) by {
            assert(s.subrange(0, 4) =~= seq!['&', 'l', 't', ';']);
        }
        assert(s.subrange(4, s.len() as int) =~= rest);
    } else if c == '>' {
        assert(!starts_with(s, seq!['&', 'l', 't', ';'])) by {
            assert(s[1] == 'g');
        }
        assert(starts_with(s, seq!['&', 'g', 't', ';'])) by {
            assert(s.subrange(0, 4) =~= seq!['&', 'g', 't', ';']);
        }
        assert(s.subrange(4, s.len() as int) =~= rest);
    } else if c == '"' {
        assert(!starts_with(s, seq!['&', 'l', 't', ';'])) by {
            assert(s[1] == 'q');
        }
        assert(!starts_with(s, seq!['&', 'g', 't', ';'])) by {
            assert(s[1] == 'q');
        }
        assert(starts_with(s, seq!['&', 'q', 'u', 'o', 't', ';'])) by {
            assert(s.subrange(0, 6) =~= seq!['&', 'q', 'u', 'o', 't', ';']);
        }
        assert(s.subrange(6, s.len() as int) =~= rest);
    } else if c == '&' {
        assert(!starts_with(s, seq!['&', 'l', 't', ';'])) by {
            assert(s[1] == 'a');
        }
        assert(!starts_with(s, seq!['&', 'g', 't', ';'])) by {
            assert(s[1] == 'a');
        }
        assert(!starts_with(s, seq!['&', 'q', 'u', 'o', 't', ';'])) by {
            assert(s[1] == 'a');
        }
        assert(starts_with(s, seq!['&', 'a', 'm', 'p', ';'])) by {
            assert(s.subrange(0, 5) =~= seq!['&', 'a', 'm', 'p', ';']);
        }
        assert(s.subrange(5, s.len() as int) =~= rest);
    } else {
        assert(s[0] == c);
        assert(!starts_with(s, seq!['&', 'l', 't', ';'])) by {
            if s.len() >= 4 {
                assert(s.subrange(0, 4)[0] == c);
            }
        }
        assert(!starts_with(s, seq!['&', 'g', 't', ';'])) by {
            if s.len() >= 4 {
                assert(s.subrange(0, 4)[0] == c);
            }
        }
        assert(!starts_with(s, seq!['&', 'q', 'u', 'o', 't', ';'])) by {
            if s.len() >= 6 {
                assert(s.subrange(0, 6)[0] == c);
            }
        }
        assert(!starts_with(s, seq!['&', 'a', 'm', 'p', ';'])) by {
            if s.len() >= 5 {
                assert(s.subrange(0, 5)[0] == c);
            }
        }
        assert(s.drop_first() =~= rest);
    }
}

/// Escaping loses nothing: reading the entities back gives the text.
pub proof fn law_esc_round_trip(s: Seq<char>)
    ensures
        unescape_spec(esc_spec(s)) == s,
    decreases s.len(),
{
    if s.len() > 0 {
        let t = s.drop_first();
        law_esc_round_trip(t);
        assert(seq![s[0]] + t =~= s);
        lemma_esc_front(s[0], t);
        lemma_unescape_char(s[0], esc_spec(t));
    } else {
        assert(esc_spec(s) =~= Seq::<char>::empty());
    }
}

} // verus!

