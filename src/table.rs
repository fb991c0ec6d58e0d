//! Cell addresses, and a table keyed by them.
use vstd::prelude::*;

verus! {

/// A cell: a column index of the schema and a row.
#[derive(Clone, Copy, Debug, PartialEq, Eq, Structural)]
pub struct CellAddr {
    pub col: usize,
    pub row: i64,
}

/// The order of cells: by column, then by row.
pub open spec fn addr_lt(a: CellAddr, b: CellAddr) -> bool {
    a.col < b.col || (a.col == b.col && a.row < b.row)
}

fn addr_less(a: CellAddr, b: CellAddr) -> (r: bool)
    ensures
        r == addr_lt(a, b),
{
    a.col < b.col || (a.col == b.col && a.row < b.row)
}

/// A map from cell addresses to values, held as a list of entries in
/// increasing order of their keys, searched by bisection.
pub struct AddrTable<V> {
    entries: Vec<(CellAddr, V)>,
}

impl<V> AddrTable<V> {
    pub closed spec fn wf(&self) -> bool {
        &&& forall|i: int, j: int|
            0 <= i < j < self.entries@.len() ==> (#[trigger] self.entries@[i]).0
                != (#[trigger] self.entries@[j]).0
        &&& forall|i: int, j: int|
            0 <= i < j < self.entries@.len() ==> addr_lt(
                (#[trigger] self.entries@[i]).0,
                (#[trigger] self.entries@[j]).0,
            )
    }

    pub closed spec fn has_key(&self, a: CellAddr) -> bool {
        exists|i: int| 0 <= i < self.entries@.len() && (#[trigger] self.entries@[i]).0 == a
    }

    pub closed spec fn view(&self) -> Map<CellAddr, V> {
        Map::new(
            |a: CellAddr| self.has_key(a),
            |a: CellAddr|
                self.entries@[choose|i: int|
                    0 <= i < self.entries@.len() && (#[trigger] self.entries@[i]).0 == a].1,
        )
    }

    /// The entries in the order in which they are held.
    pub closed spec fn entry_seq(&self) -> Seq<(CellAddr, V)> {
        self.entries@
    }

    proof fn lemma_entry(&self, i: int)
        requires
            self.wf(),
            0 <= i < self.entries@.len(),
        ensures
            self@.contains_key(self.entries@[i].0),
            self@[self.entries@[i].0] == self.entries@[i].1,
    {
        let a = self.entries@[i].0;
        assert(self.has_key(a));
        let j = choose|j: int| 0 <= j < self.entries@.len() && (#[trigger] self.entries@[j]).0 == a;
        if j != i {
            if j < i {
                assert(self.entries@[j].0 != self.entries@[i].0);
            } else {
                assert(self.entries@[i].0 != self.entries@[j].0);
            }
        }
    }

    /// Each entry is in the map, and the map holds nothing else.
    pub proof fn lemma_entries(&self)
        requires
            self.wf(),
        ensures
            forall|i: int|
                0 <= i < self.entry_seq().len() ==> #[trigger] self@.contains_key(
                    self.entry_seq()[i].0,
                ) && self@[self.entry_seq()[i].0] == self.entry_seq()[i].1,
            forall|a: CellAddr|
                #[trigger] self@.contains_key(a) ==> exists|i: int|
                    0 <= i < self.entry_seq().len() && (#[trigger] self.entry_seq()[i]).0 == a,
            forall|i: int, j: int|
                0 <= i < j < self.entry_seq().len() ==> (#[trigger] self.entry_seq()[i]).0 != (
                #[trigger] self.entry_seq()[j]).0 && addr_lt(
                    self.entry_seq()[i].0,
                    self.entry_seq()[j].0,
                ),
    {
        assert forall|i: int| 0 <= i < self.entry_seq().len() implies #[trigger] self@.contains_key(
            self.entry_seq()[i].0,
        ) && self@[self.entry_seq()[i].0] == self.entry_seq()[i].1 by {
            self.lemma_entry(i);
        }
        assert forall|a: CellAddr| #[trigger] self@.contains_key(a) implies exists|i: int|
            0 <= i < self.entry_seq().len() && (#[trigger] self.entry_seq()[i]).0 == a by {
            let i = choose|i: int|
                0 <= i < self.entries@.len() && (#[trigger] self.entries@[i]).0 == a;
            assert(self.entry_seq()[i].0 == a);
        }
    }

    pub fn new() -> (r: Self)
        ensures
            r.wf(),
            r@ == Map::<CellAddr, V>::empty(),
    {
        let r = AddrTable { entries: Vec::new() };
        assert(r@ =~= Map::<CellAddr, V>::empty());
        r
    }

    pub fn len(&self) -> (r: usize)
        ensures
            r == self.entry_seq().len(),
    {
        self.entries.len()
    }

    pub fn entry(&self, i: usize) -> (r: &(CellAddr, V))
        requires
            i < self.entry_seq().len(),
        ensures
            *r == self.entry_seq()[i as int],
    {
        &self.entries[i]
    }

    /// The first position whose key is not below `a`.
    fn search(&self, a: CellAddr) -> (r: usize)
        requires
            self.wf(),
        ensures
            r <= self.entries@.len(),
            forall|k: int| 0 <= k < r ==> addr_lt((#[trigger] self.entries@[k]).0, a),
            forall|k: int|
                r <= k < self.entries@.len() ==> !addr_lt((#[trigger] self.entries@[k]).0, a),
    {
        let mut lo: usize = 0;
        let mut hi: usize = self.entries.len();
        while lo < hi
            invariant
                self.wf(),
                lo <= hi <= self.entries@.len(),
                forall|k: int| 0 <= k < lo ==> addr_lt((#[trigger] self.entries@[k]).0, a),
                forall|k: int|
                    hi <= k < self.entries@.len() ==> !addr_lt((#[trigger] self.entries@[k]).0, a),
            decreases hi - lo,
        {
            let mid = lo + (hi - lo) / 2;
            if addr_less(self.entries[mid].0, a) {
                proof {
                    assert forall|k: int| 0 <= k < mid + 1 implies addr_lt(
                        (#[trigger] self.entries@[k]).0,
                        a,
                    ) by {
                        if k < mid {
                            assert(addr_lt(self.entries@[k].0, self.entries@[mid as int].0));
                        }
                    }
                }
                lo = mid + 1;
            } else {
                proof {
                    assert forall|k: int| mid <= k < self.entries@.len() implies !addr_lt(
                        (#[trigger] self.entries@[k]).0,
                        a,
                    ) by {
                        if k > mid {
                            assert(addr_lt(self.entries@[mid as int].0, self.entries@[k].0));
                        }
                    }
                }
                hi = mid;
            }
        }
        lo
    }

    /// The first position whose key lies in column `c` or a later one.
    pub fn column_start(&self, c: usize) -> (r: usize)
        requires
            self.wf(),
        ensures
            r <= self.entry_seq().len(),
            forall|k: int| 0 <= k < r ==> (#[trigger] self.entry_seq()[k]).0.col < c,
            forall|k: int|
                r <= k < self.entry_seq().len() ==> (#[trigger] self.entry_seq()[k]).0.col >= c,
    {
        self.search(CellAddr { col: c, row: i64::MIN })
    }

    /// The position of the entry for `a`.
    pub fn index_of(&self, a: CellAddr) -> (r: Option<usize>)
        requires
            self.wf(),
        ensures
            match r {
                Some(i) => i < self.entry_seq().len() && self.entry_seq()[i as int].0 == a
                    && self@.contains_key(a) && self@[a] == self.entry_seq()[i as int].1,
                None => !self@.contains_key(a),
            },
    {
        let p = self.search(a);
        if p < self.entries.len() && self.entries[p].0 == a {
            proof {
                self.lemma_entry(p as int);
            }
            Some(p)
        } else {
            proof {
                if self.has_key(a) {
                    let k = choose|k: int|
                        0 <= k < self.entries@.len() && (#[trigger] self.entries@[k]).0 == a;
                    if k > p {
                        assert(addr_lt(self.entries@[p as int].0, self.entries@[k].0));
                    }
                }
            }
            None
        }
    }

    pub fn get(&self, a: CellAddr) -> (r: Option<&V>)
        requires
            self.wf(),
        ensures
            match r {
                Some(v) => self@.contains_key(a) && *v == self@[a],
                None => !self@.contains_key(a),
            },
    {
        match self.index_of(a) {
            Some(i) => Some(&self.entries[i].1),
            None => None,
        }
    }

    pub fn insert(&mut self, a: CellAddr, v: V)
        requires
            old(self).wf(),
        ensures
            final(self).wf(),
            final(self)@ == old(self)@.insert(a, v),
    {
        let ghost m = self@;
        let ghost old_s = self.entries@;
        let p = self.search(a);
        if p < self.entries.len() && self.entries[p].0 == a {
            self.entries.set(p, (a, v));
            proof {
                let s = self.entries@;
                assert forall|k: int| 0 <= k < s.len() implies (#[trigger] s[k]).0
                    == old_s[k].0 by {
                }
                assert(self.wf()) by {
                    assert forall|x: int, y: int| 0 <= x < y < s.len() implies (#[trigger] s[x]).0
                        != (#[trigger] s[y]).0 && addr_lt(s[x].0, s[y].0) by {
                        assert(old_s[x].0 != old_s[y].0 && addr_lt(old_s[x].0, old_s[y].0));
                    }
                }
                self.lemma_same_keys_view(old(self), p as int, a, v);
            }
        } else {
            proof {
                assert forall|k: int| 0 <= k < old_s.len() implies (#[trigger] old_s[k]).0 != a by {
                    if k > p {
                        assert(addr_lt(old_s[p as int].0, old_s[k].0));
                    }
                }
            }
            self.entries.insert(p, (a, v));
            proof {
                let s = self.entries@;
                assert(s[p as int] == (a, v));
                assert forall|k: int| 0 <= k < p implies #[trigger] s[k] == old_s[k] by {}
                assert forall|k: int| p < k < s.len() implies #[trigger] s[k] == old_s[k - 1] by {}
                assert(self.wf()) by {
                    assert forall|x: int, y: int| 0 <= x < y < s.len() implies (#[trigger] s[x]).0
                        != (#[trigger] s[y]).0 && addr_lt(s[x].0, s[y].0) by {
                        let ox = if x < p { x } else { x - 1 };
                        let oy = if y < p { y } else { y - 1 };
                        if x != p && y != p {
                            assert(s[x] == old_s[ox] && s[y] == old_s[oy]);
                            assert(old_s[ox].0 != old_s[oy].0 && addr_lt(old_s[ox].0, old_s[oy].0));
                        } else if x == p {
                            assert(s[y] == old_s[oy]);
                            assert(!addr_lt(old_s[oy].0, a));
                            assert(old_s[oy].0 != a);
                        } else {
                            assert(s[x] == old_s[ox]);
                            assert(addr_lt(old_s[ox].0, a));
                        }
                    }
                }
                assert forall|b: CellAddr|
                    #[trigger] self@.contains_key(b) == m.insert(a, v).contains_key(b) by {
                    if b == a {
                        assert(self.has_key(a));
                    } else {
                        if self.has_key(b) {
                            let k = choose|k: int| 0 <= k < s.len() && (#[trigger] s[k]).0 == b;
                            let ok = if k < p { k } else { k - 1 };
                            assert(old_s[ok].0 == b);
                            assert(old(self).has_key(b));
                        }
                        if old(self).has_key(b) {
                            let k = choose|k: int|
                                0 <= k < old_s.len() && (#[trigger] old_s[k]).0 == b;
                            let nk = if k < p { k } else { k + 1 };
                            assert(s[nk].0 == b);
                            assert(self.has_key(b));
                        }
                    }
                }
                assert forall|b: CellAddr| #[trigger] self@.contains_key(b) implies self@[b]
                    == m.insert(a, v)[b] by {
                    let k = choose|k: int| 0 <= k < s.len() && (#[trigger] s[k]).0 == b;
                    self.lemma_entry(k);
                    if b != a {
                        let ok = if k < p { k } else { k - 1 };
                        assert(s[k] == old_s[ok]);
                        old(self).lemma_entry(ok);
                    }
                }
                assert(self@ =~= m.insert(a, v));
            }
        }
    }

    /// Overwriting the value at position `p`, whose key is `a`, updates the
    /// map at `a`.
    proof fn lemma_same_keys_view(&self, before: &Self, p: int, a: CellAddr, v: V)
        requires
            before.wf(),
            self.wf(),
            0 <= p < before.entries@.len(),
            before.entries@[p].0 == a,
            self.entries@ == before.entries@.update(p, (a, v)),
        ensures
            self@ == before@.insert(a, v),
    {
        let s = self.entries@;
        let old_s = before.entries@;
        assert forall|b: CellAddr| #[trigger] self@.contains_key(b) == before@.insert(
            a,
            v,
        ).contains_key(b) by {
            if self.has_key(b) {
                let k = choose|k: int| 0 <= k < s.len() && (#[trigger] s[k]).0 == b;
                assert(old_s[k].0 == b);
                assert(before.has_key(b));
            }
            if before.has_key(b) {
                let k = choose|k: int| 0 <= k < old_s.len() && (#[trigger] old_s[k]).0 == b;
                assert(s[k].0 == b);
                assert(self.has_key(b));
            }
            if b == a {
                assert(s[p].0 == a);
                assert(self.has_key(a));
            }
        }
        assert forall|b: CellAddr| #[trigger] self@.contains_key(b) implies self@[b]
            == before@.insert(a, v)[b] by {
            let k = choose|k: int| 0 <= k < s.len() && (#[trigger] s[k]).0 == b;
            self.lemma_entry(k);
            if k != p {
                before.lemma_entry(k);
            }
        }
        assert(self@ =~= before@.insert(a, v));
    }

    pub fn remove(&mut self, a: CellAddr)
        requires
            old(self).wf(),
        ensures
            final(self).wf(),
            final(self)@ == old(self)@.remove(a),
    {
        let ghost m = self@;
        let ghost old_s = self.entries@;
        match self.index_of(a) {
            Some(i) => {
                self.entries.remove(i);
                proof {
                    let s = self.entries@;
                    assert(s =~= old_s.remove(i as int));
                    assert forall|k: int| 0 <= k < s.len() implies #[trigger] s[k].0 != a by {
                        if k < i {
                            assert(old_s[k].0 != old_s[i as int].0);
                        } else {
                            assert(s[k] == old_s[k + 1]);
                            assert(old_s[i as int].0 != old_s[k + 1].0);
                        }
                    }
                    assert(self.wf()) by {
                        assert forall|x: int, y: int| 0 <= x < y < s.len() implies (
                        #[trigger] s[x]).0 != (#[trigger] s[y]).0 by {
                            let ox = if x < i { x } else { x + 1 };
                            let oy = if y < i { y } else { y + 1 };
                            assert(s[x] == old_s[ox] && s[y] == old_s[oy]);
                            assert(old_s[ox].0 != old_s[oy].0);
                            assert(addr_lt(old_s[ox].0, old_s[oy].0));
                        }
                    }
                    assert forall|b: CellAddr| #[trigger] self@.contains_key(b)
                        == m.remove(a).contains_key(b) by {
                        if b != a {
                            if self.has_key(b) {
                                let k = choose|k: int| 0 <= k < s.len() && (#[trigger] s[k]).0 == b;
                                let ok = if k < i { k } else { k + 1 };
                                assert(old_s[ok].0 == b);
                                assert(old(self).has_key(b));
                            }
                            if old(self).has_key(b) {
                                let k = choose|k: int|
                                    0 <= k < old_s.len() && (#[trigger] old_s[k]).0 == b;
                                let nk = if k < i { k } else { k - 1 };
                                assert(k != i);
                                assert(s[nk].0 == b);
                                assert(self.has_key(b));
                            }
                        }
                    }
                    assert forall|b: CellAddr| #[trigger] self@.contains_key(b) implies self@[b]
                        == m.remove(a)[b] by {
                        let k = choose|k: int| 0 <= k < s.len() && (#[trigger] s[k]).0 == b;
                        let ok = if k < i { k } else { k + 1 };
                        self.lemma_entry(k);
                        old(self).lemma_entry(ok);
                    }
                    assert(self@ =~= m.remove(a));
                }
            },
            None => {
                assert(m.remove(a) =~= m);
            },
        }
    }
}

} // verus!
