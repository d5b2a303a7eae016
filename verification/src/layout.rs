//! Grid placement of the `defsrc` keys, computed from where each key stands
//! in the source: its line gives the row, its order in the line the column.
use vstd::prelude::*;
use vstd::string::*;
use vstd::utf8::*;
use crate::sexpr::Span;
use crate::text::{at_char_start, lemma_after_ascii, lemma_start_char_start, substring, to_chars};

verus! {

/// Where a key sits in the grid.
#[derive(Clone, Copy, Debug)]
pub struct GridPos {
    pub row: usize,
    pub col: usize,
    pub span: usize,
}

/// The grid of a keyboard: one cell per `defsrc` key, and its size.
#[derive(Debug)]
pub struct GridLayout {
    pub cells: Vec<GridPos>,
    pub n_rows: usize,
    pub n_cols: usize,
}

/// What a `GridLayout` is: its cells and its size.
pub struct GridLayoutV {
    pub cells: Seq<GridPos>,
    pub n_rows: nat,
    pub n_cols: nat,
}

impl View for GridLayout {
    type V = GridLayoutV;

    open spec fn view(&self) -> GridLayoutV {
        GridLayoutV { cells: self.cells@, n_rows: self.n_rows as nat, n_cols: self.n_cols as nat }
    }
}

impl Clone for GridLayout {
    fn clone(&self) -> (r: Self)
        ensures
            r@ == self@,
    {
        let mut cells: Vec<GridPos> = Vec::new();
        let mut i: usize = 0;
        while i < self.cells.len()
            invariant
                i <= self.cells@.len(),
                cells@ == self.cells@.subrange(0, i as int),
            decreases self.cells@.len() - i,
        {
            cells.push(self.cells[i]);
            i = i + 1;
            assert(cells@ =~= self.cells@.subrange(0, i as int));
        }
        assert(cells@ =~= self.cells@);
        GridLayout { cells, n_rows: self.n_rows, n_cols: self.n_cols }
    }
}

// ---------------------------------------------------------------------------
// Lines and columns of byte positions
// ---------------------------------------------------------------------------

/// The number of `\n` bytes before position `p`.
pub open spec fn nl_count(b: Seq<u8>, p: nat) -> nat
    decreases p,
{
    if p == 0 {
        0
    } else {
        nl_count(b, (p - 1) as nat) + if b[p - 1] == 10 {
            1nat
        } else {
            0nat
        }
    }
}

/// The position where the line that holds position `p` starts.
pub open spec fn line_start(b: Seq<u8>, p: nat) -> nat
    decreases p,
{
    if p == 0 {
        0
    } else if b[p - 1] == 10 {
        p
    } else {
        line_start(b, (p - 1) as nat)
    }
}

/// The number of characters between the start of the line of `p` and `p`.
pub open spec fn char_col(b: Seq<u8>, p: nat) -> nat {
    decode_utf8(b.subrange(line_start(b, p) as int, p as int)).len()
}

/// The positions where the lines of the first `n` bytes start.
pub open spec fn line_starts(b: Seq<u8>, n: nat) -> Seq<usize>
    decreases n,
{
    if n == 0 {
        seq![0usize]
    } else if b[n - 1] == 10 {
        line_starts(b, (n - 1) as nat).push(n as usize)
    } else {
        line_starts(b, (n - 1) as nat)
    }
}

pub proof fn lemma_line_start(b: Seq<u8>, p: nat)
    requires
        p <= b.len(),
    ensures
        line_start(b, p) <= p,
        line_start(b, p) == 0 || b[line_start(b, p) - 1] == 10,
    decreases p,
{
    if p > 0 && b[p - 1] != 10 {
        lemma_line_start(b, (p - 1) as nat);
    }
}

#[verifier::spinoff_prover]
#[verifier::rlimit(30)]
pub proof fn lemma_line_starts(b: Seq<u8>, n: nat)
    requires
        n <= b.len(),
        b.len() <= usize::MAX,
    ensures
        line_starts(b, n).len() == nl_count(b, n) + 1,
        line_starts(b, n)[0] == 0,
        forall|i: int, j: int|
            0 <= i < j < line_starts(b, n).len() ==> line_starts(b, n)[i] < line_starts(b, n)[j],
        forall|k: int| 0 <= k < line_starts(b, n).len() ==> line_starts(b, n)[k] <= n,
        forall|p: nat| p <= n ==> #[trigger] nl_count(b, p) <= nl_count(b, n),
        forall|p: nat|
            p <= n ==> {
                &&& #[trigger] line_starts(b, n)[nl_count(b, p) as int] == line_start(b, p)
                &&& nl_count(b, p) + 1 < line_starts(b, n).len() ==> line_starts(b, n)[nl_count(b, p) + 1 as int] > p
            },
    decreases n,
{
    if n > 0 {
        let m = (n - 1) as nat;
        lemma_line_starts(b, m);
        let prev = line_starts(b, m);
        let cur = line_starts(b, n);
        assert forall|p: nat| p <= n implies #[trigger] nl_count(b, p) <= nl_count(b, n) by {
            lemma_nl_count_mono(b, p, n);
        }
        assert forall|p: nat| p <= n implies {
            &&& nl_count(b, p) < line_starts(b, n).len()
            &&& #[trigger] line_starts(b, n)[nl_count(b, p) as int] == line_start(b, p)
            &&& nl_count(b, p) + 1 < line_starts(b, n).len() ==> line_starts(b, n)[nl_count(b, p)
                + 1 as int] > p
        } by {
            if p <= m {
                assert(prev[nl_count(b, p) as int] == line_start(b, p));
                assert(cur[nl_count(b, p) as int] == prev[nl_count(b, p) as int]);
                if nl_count(b, p) + 1 < prev.len() {
                    assert(cur[nl_count(b, p) + 1 as int] == prev[nl_count(b, p) + 1 as int]);
                } else if nl_count(b, p) + 1 < cur.len() {
                    assert(cur[nl_count(b, p) + 1 as int] == n);
                }
            } else {
                assert(p == n);
                assert(prev[nl_count(b, m) as int] == line_start(b, m));
            }
        }
    } else {
        assert forall|p: nat| p <= n implies #[trigger] nl_count(b, p) <= nl_count(b, n) by {
            lemma_nl_count_mono(b, p, n);
        }
        assert forall|p: nat| p <= n implies {
            &&& nl_count(b, p) < line_starts(b, n).len()
            &&& #[trigger] line_starts(b, n)[nl_count(b, p) as int] == line_start(b, p)
            &&& nl_count(b, p) + 1 < line_starts(b, n).len() ==> line_starts(b, n)[nl_count(b, p)
                + 1 as int] > p
        } by {
            assert(p == 0);
            assert(nl_count(b, 0) == 0);
            assert(line_start(b, 0) == 0);
        }
    }
}

pub proof fn lemma_nl_count_mono(b: Seq<u8>, p: nat, n: nat)
    requires
        p <= n,
    ensures
        nl_count(b, p) <= nl_count(b, n),
    decreases n,
{
    if p < n {
        lemma_nl_count_mono(b, p, (n - 1) as nat);
    }
}

pub proof fn lemma_nl_count_le(b: Seq<u8>, p: nat)
    ensures
        nl_count(b, p) <= p,
    decreases p,
{
    if p > 0 {
        lemma_nl_count_le(b, (p - 1) as nat);
    }
}

/// The positions where lines start in `source`: 0 and each position after a `\n`.
fn compute_line_starts(source: &str) -> (r: Vec<usize>)
    ensures
        r@ == line_starts(source.spec_bytes(), source.spec_bytes().len()),
{
    let bytes = source.as_bytes();
    let ghost b = bytes@;
    let mut starts: Vec<usize> = vec![0usize];
    let mut i: usize = 0;
    assert(starts@ =~= line_starts(b, 0));
    while i < bytes.len()
        invariant
            b == bytes@,
            b == source.spec_bytes(),
            i <= b.len(),
            starts@ == line_starts(b, i as nat),
        decreases b.len() - i,
    {
        if bytes[i] == 10 {
            starts.push(i + 1);
        }
        i = i + 1;
    }
    starts
}

/// The line number and the character column of the byte position `byte_pos`.
fn byte_to_line_col(source: &str, line_starts: &Vec<usize>, byte_pos: usize) -> (r: (
    usize,
    usize,
))
    requires
        line_starts@ == crate::layout::line_starts(
            source.spec_bytes(),
            source.spec_bytes().len(),
        ),
        byte_pos <= source.spec_bytes().len(),
        at_char_start(source.spec_bytes(), byte_pos as int),
    ensures
        r.0 == nl_count(source.spec_bytes(), byte_pos as nat),
        r.1 == char_col(source.spec_bytes(), byte_pos as nat),
{
    let ghost b = source.spec_bytes();
    let ghost p = byte_pos as nat;
    let bytes = source.as_bytes();
    assert(bytes@.len() == bytes.len());
    proof {
        lemma_line_starts(b, b.len());
        lemma_line_start(b, p);
    }
    let ghost q = nl_count(b, p);
    let mut lo: usize = 0;
    let mut hi: usize = line_starts.len();
    while hi - lo > 1
        invariant
            line_starts@ == crate::layout::line_starts(b, b.len()),
            lo < hi <= line_starts@.len(),
            line_starts@[lo as int] <= byte_pos,
            hi < line_starts@.len() ==> line_starts@[hi as int] > byte_pos,
        decreases hi - lo,
    {
        let mid = lo + (hi - lo) / 2;
        if line_starts[mid] <= byte_pos {
            lo = mid;
        } else {
            hi = mid;
        }
    }
    proof {
        let ls = line_starts@;
        assert(nl_count(b, p) <= nl_count(b, b.len()));
        assert(ls[q as int] == line_start(b, p));
        if lo < q {
            assert(hi <= q);
            if hi < q {
                assert(ls[hi as int] < ls[q as int]);
            }
            assert(false);
        }
        if lo > q {
            assert(q + 1 <= lo);
            if q + 1 < lo {
                assert(ls[q + 1 as int] < ls[lo as int]);
            }
            assert(false);
        }
        assert(lo == q);
    }
    let line_start = line_starts[lo];
    proof {
        encode_utf8_valid_utf8(source@);
        if line_start == 0 {
            lemma_start_char_start(b);
        } else {
            lemma_after_ascii(b, line_start - 1);
        }
    }
    let text = substring(source, line_start, byte_pos);
    let chars = to_chars(text.as_str());
    (lo, chars.len())
}

// ---------------------------------------------------------------------------
// The grid
// ---------------------------------------------------------------------------

/// The (line, column) of each key.
pub open spec fn key_positions(b: Seq<u8>, spans: Seq<Span>) -> Seq<(nat, nat)> {
    spans.map_values(|s: Span| (nl_count(b, s.start as nat), char_col(b, s.start as nat)))
}

proof fn lemma_key_position(b: Seq<u8>, spans: Seq<Span>, i: int)
    requires
        0 <= i < spans.len(),
    ensures
        key_positions(b, spans).len() == spans.len(),
        key_positions(b, spans)[i] == (nl_count(b, spans[i].start as nat), char_col(b, spans[i].start as nat)),
{
}

/// Key `j` comes before key `i` in the row of `i`: it stands further left,
/// or in the same column and earlier in the list.
pub open spec fn before_in_row(pos: Seq<(nat, nat)>, j: int, i: int) -> bool {
    &&& pos[j].0 == pos[i].0
    &&& (pos[j].1 < pos[i].1 || (pos[j].1 == pos[i].1 && j < i))
}

/// The smallest source column among the first `n` keys that come after key
/// `i` in its row, if any.
pub open spec fn next_col_upto(pos: Seq<(nat, nat)>, i: int, n: nat) -> Option<nat>
    decreases n,
{
    if n == 0 {
        None
    } else {
        let r = next_col_upto(pos, i, (n - 1) as nat);
        if before_in_row(pos, i, n - 1) {
            match r {
                Some(c) => if pos[n - 1].1 < c {
                    Some(pos[n - 1].1)
                } else {
                    Some(c)
                },
                None => Some(pos[n - 1].1),
            }
        } else {
            r
        }
    }
}

/// How many grid columns key `i` spans: up to the source column of the
/// next key in its row, or one for the last key of a row.
pub open spec fn span_of(pos: Seq<(nat, nat)>, i: int) -> nat {
    match next_col_upto(pos, i, pos.len()) {
        Some(c) => (c - pos[i].1) as nat,
        None => 1,
    }
}

/// The number of keys among the first `n` that come before key `i` in its row.
pub open spec fn rank_upto(pos: Seq<(nat, nat)>, i: int, n: nat) -> nat
    decreases n,
{
    if n == 0 {
        0
    } else {
        rank_upto(pos, i, (n - 1) as nat) + if before_in_row(pos, n - 1, i) {
            1nat
        } else {
            0nat
        }
    }
}

/// The number of keys among the first `n` on the line of key `i`.
pub open spec fn row_count_upto(pos: Seq<(nat, nat)>, i: int, n: nat) -> nat
    decreases n,
{
    if n == 0 {
        0
    } else {
        row_count_upto(pos, i, (n - 1) as nat) + if pos[n - 1].0 == pos[i].0 {
            1nat
        } else {
            0nat
        }
    }
}

/// The smallest line among the first `n` keys (`n > 0`).
pub open spec fn min_line(pos: Seq<(nat, nat)>, n: nat) -> nat
    decreases n,
{
    if n <= 1 {
        pos[0].0
    } else if pos[n - 1].0 < min_line(pos, (n - 1) as nat) {
        pos[n - 1].0
    } else {
        min_line(pos, (n - 1) as nat)
    }
}

/// The largest line among the first `n` keys (`n > 0`).
pub open spec fn max_line(pos: Seq<(nat, nat)>, n: nat) -> nat
    decreases n,
{
    if n <= 1 {
        pos[0].0
    } else if pos[n - 1].0 > max_line(pos, (n - 1) as nat) {
        pos[n - 1].0
    } else {
        max_line(pos, (n - 1) as nat)
    }
}

/// The largest number of keys on one line, among the lines of the first `n` keys.
pub open spec fn max_row_count(pos: Seq<(nat, nat)>, n: nat) -> nat
    decreases n,
{
    if n == 0 {
        0
    } else if row_count_upto(pos, n - 1, pos.len()) > max_row_count(pos, (n - 1) as nat) {
        row_count_upto(pos, n - 1, pos.len())
    } else {
        max_row_count(pos, (n - 1) as nat)
    }
}

/// The grid of keys at the positions `pos`: rows are lines counted from the
/// first line that holds a key; in each row the keys take the columns
/// 0, 1, ... in the order in which they stand.
pub open spec fn layout_of_positions(pos: Seq<(nat, nat)>) -> GridLayoutV {
    if pos.len() == 0 {
        GridLayoutV { cells: seq![], n_rows: 0, n_cols: 0 }
    } else {
        GridLayoutV {
            cells: Seq::new(
                pos.len(),
                |i: int|
                    GridPos {
                        row: (pos[i].0 - min_line(pos, pos.len())) as usize,
                        col: rank_upto(pos, i, pos.len()) as usize,
                        span: span_of(pos, i) as usize,
                    },
            ),
            n_rows: (max_line(pos, pos.len()) - min_line(pos, pos.len()) + 1) as nat,
            n_cols: max_row_count(pos, pos.len()),
        }
    }
}

/// The grid of the keys whose source ranges are `spans`.
pub open spec fn layout_of(b: Seq<u8>, spans: Seq<Span>) -> GridLayoutV {
    layout_of_positions(key_positions(b, spans))
}

proof fn lemma_min_max_line(pos: Seq<(nat, nat)>, n: nat)
    requires
        1 <= n <= pos.len(),
    ensures
        forall|k: int| 0 <= k < n ==> min_line(pos, n) <= #[trigger] pos[k].0 <= max_line(pos, n),
        exists|k: int| 0 <= k < n && #[trigger] pos[k].0 == min_line(pos, n),
        exists|k: int| 0 <= k < n && #[trigger] pos[k].0 == max_line(pos, n),
    decreases n,
{
    if n > 1 {
        lemma_min_max_line(pos, (n - 1) as nat);
        let k1 = choose|k: int| 0 <= k < n - 1 && #[trigger] pos[k].0 == min_line(pos, (n - 1) as nat);
        let k2 = choose|k: int| 0 <= k < n - 1 && #[trigger] pos[k].0 == max_line(pos, (n - 1) as nat);
        assert(pos[k1].0 == min_line(pos, (n - 1) as nat));
        assert(pos[k2].0 == max_line(pos, (n - 1) as nat));
    } else {
        assert(pos[0].0 == min_line(pos, n));
    }
}

proof fn lemma_counts_bounded(pos: Seq<(nat, nat)>, i: int, n: nat)
    ensures
        rank_upto(pos, i, n) <= n,
        row_count_upto(pos, i, n) <= n,
        rank_upto(pos, i, n) <= row_count_upto(pos, i, n),
    decreases n,
{
    if n > 0 {
        lemma_counts_bounded(pos, i, (n - 1) as nat);
    }
}

proof fn lemma_max_row_count(pos: Seq<(nat, nat)>, n: nat)
    requires
        n <= pos.len(),
    ensures
        forall|k: int| 0 <= k < n ==> row_count_upto(pos, k, pos.len()) <= max_row_count(pos, n),
        max_row_count(pos, n) <= pos.len(),
    decreases n,
{
    if n > 0 {
        lemma_max_row_count(pos, (n - 1) as nat);
        lemma_counts_bounded(pos, n - 1, pos.len());
    }
}

/// The number of keys before `i` in its row among the first `lim` keys.
fn count_before(pos: &Vec<(usize, usize)>, i: usize, lim: usize) -> (r: usize)
    requires
        i < pos.len(),
        lim <= pos.len(),
    ensures
        r == rank_upto(pos_view(pos@), i as int, lim as nat),
{
    let mut n: usize = 0;
    let mut k: usize = 0;
    while k < lim
        invariant
            k <= lim <= pos@.len(),
            i < pos@.len(),
            n == rank_upto(pos_view(pos@), i as int, k as nat),
            n <= k,
        decreases lim - k,
    {
        let (lk, ck) = pos[k];
        let (li, ci) = pos[i];
        if lk == li && (ck < ci || (ck == ci && k < i)) {
            n = n + 1;
        }
        k = k + 1;
    }
    n
}

/// How many grid columns key `i` spans (see `span_of`).
fn span_after(pos: &Vec<(usize, usize)>, i: usize) -> (r: usize)
    requires
        i < pos.len(),
    ensures
        r == span_of(pos_view(pos@), i as int),
{
    let ghost p = pos_view(pos@);
    let (li, ci) = pos[i];
    let mut best: Option<usize> = None;
    let mut k: usize = 0;
    while k < pos.len()
        invariant
            k <= pos@.len(),
            i < pos@.len(),
            p == pos_view(pos@),
            (li, ci) == pos@[i as int],
            match best {
                Some(c) => next_col_upto(p, i as int, k as nat) == Some(c as nat) && c >= ci,
                None => next_col_upto(p, i as int, k as nat) is None,
            },
        decreases pos@.len() - k,
    {
        let (lk, ck) = pos[k];
        assert(p[k as int] == (lk as nat, ck as nat));
        assert(p[i as int] == (li as nat, ci as nat));
        if lk == li && (ci < ck || (ci == ck && i < k)) {
            best = match best {
                Some(c) => if ck < c {
                    Some(ck)
                } else {
                    Some(c)
                },
                None => Some(ck),
            };
        }
        k = k + 1;
    }
    match best {
        Some(c) => c - ci,
        None => 1,
    }
}

/// The number of keys on the line of key `i`.
fn count_row(pos: &Vec<(usize, usize)>, i: usize) -> (r: usize)
    requires
        i < pos.len(),
    ensures
        r == row_count_upto(pos_view(pos@), i as int, pos@.len()),
{
    let mut n: usize = 0;
    let mut k: usize = 0;
    while k < pos.len()
        invariant
            k <= pos@.len(),
            i < pos@.len(),
            n == row_count_upto(pos_view(pos@), i as int, k as nat),
            n <= k,
        decreases pos@.len() - k,
    {
        if pos[k].0 == pos[i].0 {
            n = n + 1;
        }
        k = k + 1;
    }
    n
}

/// The positions as natural numbers.
pub open spec fn pos_view(v: Seq<(usize, usize)>) -> Seq<(nat, nat)> {
    v.map_values(|p: (usize, usize)| (p.0 as nat, p.1 as nat))
}

/// The grid of the `defsrc` keys whose source ranges are `key_spans`.
pub fn compute_layout(source: &str, key_spans: &[Span]) -> (r: GridLayout)
    requires
        source.spec_bytes().len() < usize::MAX,
        forall|i: int|
            0 <= i < key_spans@.len() ==> at_char_start(
                source.spec_bytes(),
                #[trigger] key_spans@[i].start as int,
            ),
    ensures
        r@ == layout_of(source.spec_bytes(), key_spans@),
{
    let ghost b = source.spec_bytes();
    if key_spans.len() == 0 {
        assert(key_positions(b, key_spans@).len() == 0);
        return GridLayout { cells: Vec::new(), n_rows: 0, n_cols: 0 };
    }
    let line_starts = compute_line_starts(source);
    let n = key_spans.len();
    assert(key_positions(b, key_spans@).len() == n);
    let mut positions: Vec<(usize, usize)> = Vec::new();
    let mut i: usize = 0;
    while i < n
        invariant
            n == key_spans@.len(),
            i <= n,
            line_starts@ == crate::layout::line_starts(b, b.len()),
            b == source.spec_bytes(),
            forall|k: int|
                0 <= k < key_spans@.len() ==> at_char_start(b, #[trigger] key_spans@[k].start as int),
            positions@.len() == i,
            key_positions(b, key_spans@).len() == n,
            pos_view(positions@) == key_positions(b, key_spans@).subrange(0, i as int),
        decreases n - i,
    {
        let ghost old_pos = positions@;
        let lc = byte_to_line_col(source, &line_starts, key_spans[i].start);
        positions.push(lc);
        proof {
            let kp = key_positions(b, key_spans@);
            lemma_key_position(b, key_spans@, i as int);
            assert(old_pos.len() == i);
            assert(positions@.len() == i + 1);
            assert(positions@[i as int] == lc);
            assert(lc.0 == nl_count(b, key_spans@[i as int].start as nat));
            assert(pos_view(positions@)[i as int] == (lc.0 as nat, lc.1 as nat));
            assert(pos_view(positions@)[i as int] == kp[i as int]);
            assert forall|k: int| 0 <= k < i implies pos_view(positions@)[k] == kp[k] by {
                assert(positions@[k] == old_pos[k]);
                assert(pos_view(old_pos)[k] == kp.subrange(0, i as int)[k]);
            }
        }
        i = i + 1;
        assert(pos_view(positions@) =~= key_positions(b, key_spans@).subrange(0, i as int));
    }
    let ghost pos = key_positions(b, key_spans@);
    assert(pos_view(positions@) =~= pos);
    // smallest line
    let mut min_row: usize = positions[0].0;
    let mut k: usize = 1;
    while k < n
        invariant
            1 <= k <= n,
            n == positions@.len(),
            pos_view(positions@) == pos,
            min_row == min_line(pos, k as nat),
        decreases n - k,
    {
        if positions[k].0 < min_row {
            min_row = positions[k].0;
        }
        k = k + 1;
    }
    proof {
        lemma_min_max_line(pos, n as nat);
    }
    let mut cells: Vec<GridPos> = Vec::new();
    let mut n_cols: usize = 0;
    let mut max_row: usize = 0;
    let mut j: usize = 0;
    while j < n
        invariant
            j <= n,
            n == positions@.len(),
            n > 0,
            pos_view(positions@) == pos,
            min_row == min_line(pos, n as nat),
            forall|k: int| 0 <= k < n ==> min_line(pos, n as nat) <= #[trigger] pos[k].0 <= max_line(pos, n as nat),
            exists|k: int| 0 <= k < n && #[trigger] pos[k].0 == max_line(pos, n as nat),
            cells@.len() == j,
            forall|k: int|
                0 <= k < j ==> #[trigger] cells@[k] == (GridPos {
                    row: (pos[k].0 - min_line(pos, pos.len())) as usize,
                    col: rank_upto(pos, k, pos.len()) as usize,
                    span: span_of(pos, k) as usize,
                }),
            n_cols == max_row_count(pos, j as nat),
            j == 0 ==> max_row == 0,
            j > 0 ==> max_row == max_line(pos, j as nat) - min_line(pos, n as nat),
        decreases n - j,
    {
        assert(pos_view(positions@)[j as int].0 == positions@[j as int].0);
        assert(pos[j as int].0 >= min_line(pos, n as nat));
        let row = positions[j].0 - min_row;
        let col = count_before(&positions, j, n);
        let span = span_after(&positions, j);
        cells.push(GridPos { row, col, span });
        let in_row = count_row(&positions, j);
        if in_row > n_cols {
            n_cols = in_row;
        }
        if j == 0 || row > max_row {
            max_row = row;
        }
        j = j + 1;
    }
    proof {
        lemma_min_max_line(pos, n as nat);
        assert(cells@ =~= layout_of_positions(pos).cells);
        let k = choose|k: int| 0 <= k < n && #[trigger] pos[k].0 == max_line(pos, n as nat);
        lemma_key_position(b, key_spans@, k);
        lemma_nl_count_le(b, key_spans@[k].start as nat);
    }
    GridLayout { cells, n_rows: max_row + 1, n_cols }
}

// ---------------------------------------------------------------------------
// What the grid guarantees
// ---------------------------------------------------------------------------

proof fn lemma_rank_order(pos: Seq<(nat, nat)>, i: int, j: int, n: nat)
    requires
        0 <= i < pos.len(),
        0 <= j < pos.len(),
        before_in_row(pos, i, j),
    ensures
        rank_upto(pos, i, n) + (if i < n { 1nat } else { 0nat }) <= rank_upto(pos, j, n),
    decreases n,
{
    if n > 0 {
        lemma_rank_order(pos, i, j, (n - 1) as nat);
    }
}

proof fn lemma_rank_below_count(pos: Seq<(nat, nat)>, i: int, n: nat)
    requires
        0 <= i < pos.len(),
    ensures
        rank_upto(pos, i, n) + (if i < n { 1nat } else { 0nat }) <= row_count_upto(pos, i, n),
    decreases n,
{
    if n > 0 {
        lemma_rank_below_count(pos, i, (n - 1) as nat);
    }
}

/// Grid law: every key gets a cell inside the grid; keys on one line of the
/// source share a row, and take distinct columns in the order in which they
/// stand on that line (equal columns keep their order in `defsrc`).
pub proof fn law_layout_cells(b: Seq<u8>, spans: Seq<Span>, i: int, j: int)
    requires
        0 <= i < spans.len(),
        0 <= j < spans.len(),
        spans.len() <= usize::MAX,
    ensures
        ({
            let g = layout_of(b, spans);
            let p = key_positions(b, spans);
            &&& g.cells.len() == spans.len()
            &&& g.cells[i].row < g.n_rows
            &&& g.cells[i].col < g.n_cols
            &&& (p[i].0 == p[j].0 <==> g.cells[i].row == g.cells[j].row)
            &&& before_in_row(p, i, j) ==> g.cells[i].col < g.cells[j].col
            &&& i != j && g.cells[i].row == g.cells[j].row ==> g.cells[i].col != g.cells[j].col
        }),
{
    let p = key_positions(b, spans);
    let n = p.len();
    lemma_min_max_line(p, n);
    lemma_counts_bounded(p, i, n);
    lemma_counts_bounded(p, j, n);
    lemma_rank_below_count(p, i, n);
    lemma_max_row_count(p, n);
    if before_in_row(p, i, j) {
        lemma_rank_order(p, i, j, n);
    }
    if before_in_row(p, j, i) {
        lemma_rank_order(p, j, i, n);
    }
    lemma_key_position(b, spans, i);
    lemma_key_position(b, spans, j);
    lemma_nl_count_le(b, spans[i].start as nat);
    lemma_nl_count_le(b, spans[j].start as nat);
    assert(p[i].0 <= max_line(p, n));
    assert(p[j].0 >= min_line(p, n));
}


proof fn lemma_next_col(pos: Seq<(nat, nat)>, i: int, n: nat)
    requires
        0 <= i < pos.len(),
        n <= pos.len(),
    ensures
        match next_col_upto(pos, i, n) {
            Some(c) => {
                &&& exists|j: int| 0 <= j < n && before_in_row(pos, i, j) && #[trigger] pos[j].1 == c
                &&& forall|j: int| 0 <= j < n && before_in_row(pos, i, j) ==> c <= #[trigger] pos[j].1
            },
            None => forall|j: int| 0 <= j < n ==> !#[trigger] before_in_row(pos, i, j),
        },
    decreases n,
{
    if n > 0 {
        lemma_next_col(pos, i, (n - 1) as nat);
        let m = n - 1;
        if before_in_row(pos, i, m) {
            assert(pos[m].1 == pos[m].1);
        }
    }
}

/// Grid law on widths: a key reaches up to the source column of the
/// nearest key after it in its row, so extra spaces in `defsrc` make it
/// wider, and the last key of a row is one column wide.
pub proof fn law_layout_spans(b: Seq<u8>, spans: Seq<Span>, i: int)
    requires
        0 <= i < spans.len(),
    ensures
        ({
            let p = key_positions(b, spans);
            &&& layout_of(b, spans).cells[i].span == span_of(p, i) as usize
            &&& forall|j: int|
                0 <= j < spans.len() && before_in_row(p, i, j) ==> p[i].1 + span_of(p, i)
                    <= #[trigger] p[j].1
            &&& (exists|j: int| 0 <= j < spans.len() && #[trigger] before_in_row(p, i, j)) ==> exists|
                j: int,
            |
                0 <= j < spans.len() && before_in_row(p, i, j) && p[i].1 + span_of(p, i)
                    == #[trigger] p[j].1
            &&& (forall|j: int| 0 <= j < spans.len() ==> !#[trigger] before_in_row(p, i, j))
                ==> span_of(p, i) == 1
        }),
{
    let p = key_positions(b, spans);
    assert(p.len() == spans.len());
    lemma_next_col(p, i, p.len());
    if let Some(c) = next_col_upto(p, i, p.len()) {
        let j = choose|j: int| 0 <= j < p.len() && before_in_row(p, i, j) && #[trigger] p[j].1 == c;
        assert(p[i].1 <= p[j].1);
        assert(before_in_row(p, i, j));
    }
}

} // verus!

