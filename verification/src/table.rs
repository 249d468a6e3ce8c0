//! The symbol table: a mapping from defined names to definition bodies.
//!
//! A body is either `None` (defined but blank, as in `#define GUARD`) or a
//! string that is re-lexed when the symbol is used. The table is viewed as
//! a `Map<Seq<char>, Option<Seq<char>>>`; insertion order is irrelevant.

use vstd::prelude::*;

use crate::chars::str_eq;

verus! {

/// The view of an optional definition body.
pub open spec fn opt_str_view(v: Option<String>) -> Option<Seq<char>> {
    match v {
        Some(s) => Some(s@),
        None => None,
    }
}

/// The symbol table of one `process` call.
pub struct SymbolTable {
    entries: Vec<(String, Option<String>)>,
}

impl SymbolTable {
    /// The name of the entry at `k`.
    spec fn key(self, k: int) -> Seq<char> {
        self.entries@[k].0@
    }

    /// All entries carry distinct names. Constructors establish this and
    /// every method preserves it.
    pub closed spec fn wf(self) -> bool {
        forall|p: int, q: int|
            0 <= p < q < self.entries@.len() ==> self.key(p) != self.key(q)
    }

    /// Whether some entry carries `name`.
    spec fn has_key(self, name: Seq<char>) -> bool {
        exists|k: int| 0 <= k < self.entries@.len() && self.key(k) == name
    }

    /// The position of the entry carrying `name`.
    spec fn index_of(self, name: Seq<char>) -> int {
        choose|k: int| 0 <= k < self.entries@.len() && self.key(k) == name
    }
}

impl View for SymbolTable {
    type V = Map<Seq<char>, Option<Seq<char>>>;

    closed spec fn view(&self) -> Map<Seq<char>, Option<Seq<char>>> {
        Map::new(
            |name: Seq<char>| self.has_key(name),
            |name: Seq<char>| opt_str_view(self.entries@[self.index_of(name)].1),
        )
    }
}

impl SymbolTable {
    /// An empty table.
    pub fn new() -> (t: SymbolTable)
        ensures
            t@ == Map::<Seq<char>, Option<Seq<char>>>::empty(),
            t.wf(),
    {
        let t = SymbolTable { entries: Vec::new() };
        proof {
            assert(t@ =~= Map::<Seq<char>, Option<Seq<char>>>::empty());
        }
        t
    }

    /// The position of the entry named `name`, if there is one.
    fn find(&self, name: &str) -> (r: Option<usize>)
        ensures
            match r {
                Some(k) => k < self.entries@.len() && self.key(k as int) == name@,
                None => !self.has_key(name@),
            },
    {
        let n = self.entries.len();
        let mut k: usize = 0;
        loop
            invariant
                n == self.entries@.len(),
                k <= n,
                forall|p: int| 0 <= p < k ==> self.key(p) != name@,
            ensures
                k <= n,
                forall|p: int| 0 <= p < k ==> self.key(p) != name@,
                k < n ==> self.key(k as int) == name@,
            decreases n - k,
        {
            if k >= n {
                break ;
            }
            if str_eq(self.entries[k].0.as_str(), name) {
                break ;
            }
            k = k + 1;
        }
        if k < n {
            Some(k)
        } else {
            None
        }
    }

    /// Whether `name` is currently defined.
    pub fn contains(&self, name: &str) -> (b: bool)
        ensures
            b == self@.contains_key(name@),
    {
        match self.find(name) {
            Some(_) => true,
            None => false,
        }
    }

    /// The definition body of `name`, if `name` is defined.
    pub fn get(&self, name: &str) -> (r: Option<&Option<String>>)
        requires
            self.wf(),
        ensures
            match r {
                Some(v) => self@.contains_key(name@) && opt_str_view(*v) == self@[name@],
                None => !self@.contains_key(name@),
            },
    {
        match self.find(name) {
            Some(k) => {
                proof {
                    self.lemma_unique_index(k as int, self.index_of(name@));
                }
                Some(&self.entries[k].1)
            },
            None => None,
        }
    }

    /// Two in-range positions carrying the same name are the same position.
    proof fn lemma_unique_index(self, a: int, b: int)
        requires
            self.wf(),
            0 <= a < self.entries@.len(),
            0 <= b < self.entries@.len(),
            self.key(a) == self.key(b),
        ensures
            a == b,
    {
    }

    /// Removes `name` from the table; a missing name is not an error.
    pub fn remove(&mut self, name: &str)
        requires
            old(self).wf(),
        ensures
            final(self)@ == old(self)@.remove(name@),
            final(self).wf(),
    {
        match self.find(name) {
            None => {
                proof {
                    assert(self@ =~= old(self)@.remove(name@));
                }
            },
            Some(k) => {
                let ghost prev = *self;
                self.entries.remove(k);
                proof {
                    assert forall|p: int, q: int|
                        0 <= p < q < self.entries@.len() implies self.key(p) != self.key(
                        q,
                    ) by {
                        let pp: int = if p < k { p } else { p + 1 };
                        let qq: int = if q < k { q } else { q + 1 };
                        assert(prev.key(pp) != prev.key(qq));
                    }
                    assert forall|n2: Seq<char>|
                        self.has_key(n2) == (prev.has_key(n2) && n2 != name@) by {
                        if self.has_key(n2) {
                            let w = choose|w: int|
                                0 <= w < self.entries@.len() && self.key(w) == n2;
                            let ww: int = if w < k { w } else { w + 1 };
                            assert(prev.key(ww) == n2);
                            if n2 == name@ {
                                prev.lemma_unique_index(ww, k as int);
                            }
                        }
                        if prev.has_key(n2) && n2 != name@ {
                            let w = choose|w: int|
                                0 <= w < prev.entries@.len() && prev.key(w) == n2;
                            let ww: int = if w < k { w } else { w - 1 };
                            assert(self.key(ww) == n2);
                        }
                    }
                    assert forall|n2: Seq<char>| #[trigger] self@.contains_key(n2) implies self@[n2]
                        == prev@[n2] by {
                        let w = self.index_of(n2);
                        let ww: int = if w < k { w } else { w + 1 };
                        assert(prev.key(ww) == n2);
                        prev.lemma_unique_index(ww, prev.index_of(n2));
                    }
                    assert(self@ =~= old(self)@.remove(name@));
                }
            },
        }
    }

    /// Defines `name` with body `value`, overwriting any earlier value.
    pub fn insert(&mut self, name: String, value: Option<String>)
        requires
            old(self).wf(),
        ensures
            final(self)@ == old(self)@.insert(name@, opt_str_view(value)),
            final(self).wf(),
    {
        self.remove(name.as_str());
        let ghost mid = *self;
        self.entries.push((name, value));
        proof {
            let ghost namev = self.entries@.last().0@;
            assert forall|p: int, q: int|
                0 <= p < q < self.entries@.len() implies self.key(p) != self.key(q) by {
                if q + 1 == self.entries@.len() {
                    assert(namev == name@);
                    assert(!mid@.dom().contains(namev));
                    assert(!mid.has_key(namev)) by {
                        if mid.has_key(namev) {
                            assert(mid@.contains_key(namev));
                        }
                    }
                    assert(mid.key(p) == self.key(p));
                } else {
                    assert(mid.key(p) == self.key(p));
                    assert(mid.key(q) == self.key(q));
                }
            }
            assert forall|n2: Seq<char>|
                self.has_key(n2) == (mid.has_key(n2) || n2 == namev) by {
                if self.has_key(n2) {
                    let w = choose|w: int| 0 <= w < self.entries@.len() && self.key(w) == n2;
                    if w + 1 < self.entries@.len() {
                        assert(mid.key(w) == n2);
                    }
                }
                if mid.has_key(n2) {
                    let w = choose|w: int| 0 <= w < mid.entries@.len() && mid.key(w) == n2;
                    assert(self.key(w) == n2);
                }
                assert(self.key(self.entries@.len() - 1) == namev);
            }
            assert forall|n2: Seq<char>| #[trigger] self@.contains_key(n2) implies self@[n2]
                == (if n2 == namev {
                opt_str_view(self.entries@.last().1)
            } else {
                mid@[n2]
            }) by {
                let w = self.index_of(n2);
                if n2 == namev {
                    self.lemma_unique_index(w, self.entries@.len() - 1);
                } else {
                    assert(w + 1 < self.entries@.len());
                    assert(mid.key(w) == n2);
                    mid.lemma_unique_index(w, mid.index_of(n2));
                }
            }
            assert(self@ =~= mid@.insert(namev, opt_str_view(self.entries@.last().1)));
            assert(old(self)@.remove(name@).insert(name@, opt_str_view(value)) =~= old(self)@.insert(
                name@,
                opt_str_view(value),
            ));
        }
    }
}

} // verus!
