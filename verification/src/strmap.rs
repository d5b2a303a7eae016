//! A map from strings to strings, for alias definitions and sparse layers.
use vstd::prelude::*;
use crate::text::str_eq;

verus! {

/// A map from strings to strings; a later `insert` of a key replaces the
/// value an earlier one gave it.
#[derive(Debug)]
pub struct StrMap {
    entries: Vec<(String, String)>,
}

/// The map that the entries `e` give, later entries replacing earlier ones.
pub open spec fn map_of(e: Seq<(String, String)>) -> Map<Seq<char>, Seq<char>>
    decreases e.len(),
{
    if e.len() == 0 {
        Map::empty()
    } else {
        map_of(e.drop_last()).insert(e.last().0@, e.last().1@)
    }
}

/// Entries from `lo` on leave the key `k` as the entries before `lo` set it.
proof fn lemma_map_of_tail(e: Seq<(String, String)>, lo: int, k: Seq<char>)
    requires
        0 <= lo <= e.len(),
        forall|j: int| lo <= j < e.len() ==> (#[trigger] e[j]).0@ != k,
    ensures
        map_of(e).contains_key(k) == map_of(e.subrange(0, lo)).contains_key(k),
        map_of(e).contains_key(k) ==> map_of(e)[k] == map_of(e.subrange(0, lo))[k],
    decreases e.len() - lo,
{
    if lo < e.len() {
        let f = e.drop_last();
        assert(f.subrange(0, lo) =~= e.subrange(0, lo));
        lemma_map_of_tail(f, lo, k);
    } else {
        assert(e.subrange(0, lo) =~= e);
    }
}

impl View for StrMap {
    type V = Map<Seq<char>, Seq<char>>;

    closed spec fn view(&self) -> Map<Seq<char>, Seq<char>> {
        map_of(self.entries@)
    }
}

impl StrMap {
    /// The empty map.
    pub fn new() -> (r: StrMap)
        ensures
            r@ == Map::<Seq<char>, Seq<char>>::empty(),
    {
        StrMap { entries: Vec::new() }
    }

    /// Maps `key` to `value`.
    pub fn insert(&mut self, key: String, value: String)
        ensures
            final(self)@ == old(self)@.insert(key@, value@),
    {
        let ghost e = self.entries@;
        self.entries.push((key, value));
        assert(self.entries@.drop_last() =~= e);
    }

    /// The value of `key`, if it has one.
    pub fn get(&self, key: &str) -> (r: Option<&String>)
        ensures
            match r {
                Some(v) => self@.contains_key(key@) && v@ == self@[key@],
                None => !self@.contains_key(key@),
            },
    {
        let ghost e = self.entries@;
        let mut i = self.entries.len();
        while i > 0
            invariant
                e == self.entries@,
                i <= e.len(),
                forall|j: int| i <= j < e.len() ==> (#[trigger] e[j]).0@ != key@,
            decreases i,
        {
            let (k, v) = &self.entries[i - 1];
            if str_eq(k.as_str(), key) {
                proof {
                    lemma_map_of_tail(e, i as int, key@);
                    let f = e.subrange(0, i as int);
                    assert(f.drop_last() =~= e.subrange(0, i - 1));
                }
                return Some(v);
            }
            i = i - 1;
        }
        proof {
            lemma_map_of_tail(e, 0, key@);
        }
        None
    }
}


/// What a read gives back of a write: after `insert(k, v)`, `get(k)` gives
/// `v`, and every other key keeps what it had.
pub proof fn law_get_after_insert(
    m: Map<Seq<char>, Seq<char>>,
    k: Seq<char>,
    v: Seq<char>,
    other: Seq<char>,
)
    requires
        other != k,
    ensures
        m.insert(k, v).contains_key(k),
        m.insert(k, v)[k] == v,
        m.insert(k, v).contains_key(other) == m.contains_key(other),
        m.contains_key(other) ==> m.insert(k, v)[other] == m[other],
{
}

} // verus!
