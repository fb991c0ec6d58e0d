//! One sheet: its schema, its literal cells and its lookup edges, with the
//! write and read rules.
use vstd::prelude::*;

use crate::chain::{
    acyclic, ends_within, lemma_insert_acyclic, lemma_remove_acyclic, lemma_terminal_along,
    lemma_terminal_at_rest, lemma_walk_step, lemma_walk_stays, reaches, terminal, terminates,
    walk,
};
use crate::sheet::{
    lookup_of, value_kind, Cell, CellValue, Schema, SchemaColumn, SchemaColumnKind,
    SheetContent, SheetContentColumn,
};
use crate::table::{addr_lt, AddrTable, CellAddr};

verus! {

/// Why an operation on the store failed.
#[derive(Clone, Copy, Debug, PartialEq, Eq, Structural)]
pub enum SheetError {
    InvalidSchema,
    SheetNotFound,
    UnknownColumn,
    TypeMismatch,
    CycleDetected,
    StorageFailure,
}

/// The abstract state of a sheet: the name and kind of each column, the
/// literal held by each cell that has one, and the target of each lookup.
pub struct SheetModel {
    pub columns: Seq<(Seq<char>, SchemaColumnKind)>,
    pub literals: Map<CellAddr, CellValue>,
    pub lookups: Map<CellAddr, CellAddr>,
}

pub open spec fn schema_columns(schema: Schema) -> Seq<(Seq<char>, SchemaColumnKind)> {
    schema.columns@.map_values(|c: SchemaColumn| (c.name@, c.kind))
}

/// The state of a sheet right after provisioning: its columns, and no cell.
pub open spec fn empty_model(schema: Schema) -> SheetModel {
    SheetModel { columns: schema_columns(schema), literals: Map::empty(), lookups: Map::empty() }
}

/// The state invariants of a sheet.
pub open spec fn model_wf(m: SheetModel) -> bool {
    &&& m.columns.len() <= usize::MAX
    // column names are unique
    &&& forall|i: int, j: int|
        0 <= i < j < m.columns.len() ==> (#[trigger] m.columns[i]).0 != (#[trigger] m.columns[j]).0
    // a literal sits in a column of its own kind
    &&& forall|a: CellAddr| #[trigger]
        m.literals.contains_key(a) ==> a.col < m.columns.len() && value_kind(m.literals[a])
            == m.columns[a.col as int].1
    // a lookup joins two cells of columns of the same kind
    &&& forall|a: CellAddr| #[trigger]
        m.lookups.contains_key(a) ==> a.col < m.columns.len() && m.lookups[a].col
            < m.columns.len() && m.columns[m.lookups[a].col as int].1 == m.columns[a.col as int].1
    // a cell holds a literal or a lookup, never both
    &&& forall|a: CellAddr| #[trigger]
        m.literals.contains_key(a) ==> !m.lookups.contains_key(a)
    &&& acyclic(m.lookups)
}

/// The position of the column named `name`.
pub open spec fn column_index(
    columns: Seq<(Seq<char>, SchemaColumnKind)>,
    name: Seq<char>,
) -> Option<int> {
    if exists|i: int| 0 <= i < columns.len() && (#[trigger] columns[i]).0 == name {
        Some(choose|i: int| 0 <= i < columns.len() && (#[trigger] columns[i]).0 == name)
    } else {
        None
    }
}

/// The outcome of writing `cell` into a sheet in state `m`: the new state,
/// or the error, in which case the state stays as it was.
pub open spec fn set_cell_result(m: SheetModel, cell: Cell) -> Result<SheetModel, SheetError> {
    match column_index(m.columns, cell.column@) {
        None => Err(SheetError::UnknownColumn),
        Some(c) => {
            let a = CellAddr { col: c as usize, row: cell.row };
            match lookup_of(cell.value) {
                None => {
                    if value_kind(cell.value) != m.columns[c].1 {
                        Err(SheetError::TypeMismatch)
                    } else {
                        Ok(
                            SheetModel {
                                columns: m.columns,
                                literals: m.literals.insert(a, cell.value),
                                lookups: m.lookups.remove(a),
                            },
                        )
                    }
                },
                Some((name, row)) => match column_index(m.columns, name) {
                    None => Err(SheetError::UnknownColumn),
                    Some(tc) => {
                        let t = CellAddr { col: tc as usize, row: row as i64 };
                        if m.columns[tc].1 != m.columns[c].1 {
                            Err(SheetError::TypeMismatch)
                        } else if reaches(m.lookups, t, a) {
                            Err(SheetError::CycleDetected)
                        } else {
                            Ok(
                                SheetModel {
                                    columns: m.columns,
                                    literals: m.literals.remove(a),
                                    lookups: m.lookups.insert(a, t),
                                },
                            )
                        }
                    },
                },
            }
        },
    }
}

/// The literal at the end of the chain that starts at `a`, if that cell
/// holds one.
pub open spec fn resolved_value(m: SheetModel, a: CellAddr) -> Option<CellValue> {
    let t = terminal(m.lookups, a);
    if m.literals.contains_key(t) {
        Some(m.literals[t])
    } else {
        None
    }
}

/// What a read shows for cell `a`: nothing, or an entry whose value is
/// `None` for a chain that ends at an empty cell. With `no_lookup_nulls`
/// such cells are left out.
pub open spec fn cell_output(m: SheetModel, no_lookup_nulls: bool, a: CellAddr) -> Option<
    Option<CellValue>,
> {
    if m.literals.contains_key(a) {
        Some(Some(m.literals[a]))
    } else if m.lookups.contains_key(a) {
        if no_lookup_nulls && resolved_value(m, a) is None {
            None
        } else {
            Some(resolved_value(m, a))
        }
    } else {
        None
    }
}

/// `entries` lists, once each, the cells that a read shows in column `c`.
pub open spec fn column_matches(
    m: SheetModel,
    no_lookup_nulls: bool,
    c: int,
    entries: Seq<SheetContentColumn>,
) -> bool {
    &&& forall|j: int, k: int|
        0 <= j < k < entries.len() ==> (#[trigger] entries[j]).row != (#[trigger] entries[k]).row
    &&& forall|j: int|
        0 <= j < entries.len() ==> cell_output(
            m,
            no_lookup_nulls,
            (CellAddr { col: c as usize, row: (#[trigger] entries[j]).row }),
        ) == Some(entries[j].value)
    &&& forall|row: i64|
        (#[trigger] cell_output(m, no_lookup_nulls, (CellAddr { col: c as usize, row }))) is Some
            ==> exists|j: int| 0 <= j < entries.len() && (#[trigger] entries[j]).row == row
}

/// `content` is what a read of a sheet in state `m` returns.
pub open spec fn content_matches(
    m: SheetModel,
    no_lookup_nulls: bool,
    content: SheetContent,
) -> bool {
    &&& content.columns@.len() == m.columns.len()
    &&& forall|i: int|
        0 <= i < m.columns.len() ==> (#[trigger] content.columns@[i]).0@ == m.columns[i].0
            && column_matches(m, no_lookup_nulls, i, content.columns@[i].1@)
}

fn clone_value(v: &Option<CellValue>) -> (r: Option<CellValue>)
    ensures
        r == *v,
{
    match v {
        Some(x) => Some(x.clone()),
        None => None,
    }
}

/// A sheet: its schema, its literals and its lookups.
pub struct Sheet {
    schema: Schema,
    literals: AddrTable<CellValue>,
    lookups: AddrTable<CellAddr>,
}

impl Sheet {
    pub closed spec fn view(&self) -> SheetModel {
        SheetModel {
            columns: schema_columns(self.schema),
            literals: self.literals@,
            lookups: self.lookups@,
        }
    }

    pub closed spec fn wf(&self) -> bool {
        &&& self.literals.wf()
        &&& self.lookups.wf()
        &&& model_wf(self@)
    }

    /// A well-formed sheet meets the sheet invariants.
    pub proof fn lemma_wf(&self)
        requires
            self.wf(),
        ensures
            model_wf(self@),
    {
    }

    /// An empty sheet with the given schema: its column catalog, and no
    /// literal and no lookup.
    pub fn new(schema: &Schema) -> (r: Sheet)
        requires
            schema.valid(),
        ensures
            r.wf(),
            r@ == empty_model(*schema),
    {
        let column_count = schema.columns.len();
        let r = Sheet {
            schema: schema.clone(),
            literals: AddrTable::new(),
            lookups: AddrTable::new(),
        };
        proof {
            let cols = schema_columns(r.schema);
            assert(schema.columns@.len() == column_count);
            assert forall|i: int, j: int| 0 <= i < j < cols.len() implies (#[trigger] cols[i]).0
                != (#[trigger] cols[j]).0 by {
                assert(schema.columns@[i].name@ != schema.columns@[j].name@);
            }
            assert forall|a: CellAddr| #[trigger] terminates(r@.lookups, a) by {
                assert(ends_within(r@.lookups, a, 0));
            }
        }
        r
    }

    /// The position and kind of the column named `name`.
    pub fn column_by_name(&self, name: &String) -> (r: Option<(usize, SchemaColumnKind)>)
        requires
            self.wf(),
        ensures
            match r {
                Some((i, kind)) => column_index(self@.columns, name@) == Some(i as int)
                    && i < self@.columns.len() && self@.columns[i as int].1 == kind,
                None => column_index(self@.columns, name@) is None,
            },
    {
        let ghost cols = self@.columns;
        let n = self.schema.columns.len();
        let mut i: usize = 0;
        while i < n
            invariant
                self.wf(),
                n == cols.len(),
                cols == schema_columns(self.schema),
                cols == self@.columns,
                i <= n,
                forall|k: int| 0 <= k < i ==> (#[trigger] cols[k]).0 != name@,
            decreases n - i,
        {
            if self.schema.columns[i].name == *name {
                proof {
                    assert(cols[i as int].0 == name@);
                    let c = choose|c: int| 0 <= c < cols.len() && (#[trigger] cols[c]).0 == name@;
                    if c != i {
                        if c < i {
                            assert(cols[c].0 != cols[i as int].0);
                        } else {
                            assert(cols[i as int].0 != cols[c].0);
                        }
                    }
                }
                return Some((i, self.schema.columns[i].kind));
            }
            i = i + 1;
        }
        None
    }

    /// Whether the chain that starts at `target` passes through `source`:
    /// an edge from `source` to `target` would then close a cycle.
    pub fn detect_cycle(&self, source: CellAddr, target: CellAddr) -> (r: bool)
        requires
            self.wf(),
        ensures
            r == reaches(self@.lookups, target, source),
    {
        let ghost e = self@.lookups;
        assert(terminates(e, target));
        let ghost bound = choose|n: nat| ends_within(e, target, n);
        let ghost mut i: nat = 0;
        let mut current = target;
        loop
            invariant
                self.wf(),
                e == self@.lookups,
                ends_within(e, target, bound),
                current == walk(e, target, i),
                i <= bound,
                forall|k: nat| k < i ==> #[trigger] walk(e, target, k) != source,
            decreases bound - i,
        {
            if current == source {
                return true;
            }
            match self.lookups.get(current) {
                None => {
                    proof {
                        assert forall|k: nat| #[trigger] walk(e, target, k) != source by {
                            if k >= i {
                                lemma_walk_stays(e, target, i, k);
                            }
                        }
                    }
                    return false;
                },
                Some(next) => {
                    proof {
                        if i >= bound {
                            lemma_walk_stays(e, target, bound, i);
                        }
                        lemma_walk_step(e, target, i);
                    }
                    current = *next;
                    proof {
                        i = i + 1;
                    }
                },
            }
        }
    }

    /// Writes one cell: a literal of the column's kind, which replaces any
    /// lookup of the cell, or a lookup to a cell of a column of the same kind
    /// that closes no cycle, which replaces any literal of the cell.
    pub fn set_cell(&mut self, cell: &Cell) -> (r: Result<(), SheetError>)
        requires
            old(self).wf(),
        ensures
            final(self).wf(),
            match set_cell_result(old(self)@, *cell) {
                Ok(m) => r is Ok && final(self)@ == m,
                Err(e) => r == Err::<(), SheetError>(e) && final(self)@ == old(self)@,
            },
    {
        let ghost m = self@;
        let (col, kind) = match self.column_by_name(&cell.column) {
            Some(found) => found,
            None => return Err(SheetError::UnknownColumn),
        };
        let addr = CellAddr { col, row: cell.row };
        match cell.value.is_lookup() {
            Some(lookup) => {
                let (target_col, target_kind) = match self.column_by_name(&lookup.target_col) {
                    Some(found) => found,
                    None => return Err(SheetError::UnknownColumn),
                };
                if target_kind != kind {
                    return Err(SheetError::TypeMismatch);
                }
                let target = CellAddr { col: target_col, row: lookup.target_row };
                if self.detect_cycle(addr, target) {
                    return Err(SheetError::CycleDetected);
                }
                self.literals.remove(addr);
                self.lookups.insert(addr, target);
                proof {
                    lemma_insert_acyclic(m.lookups, addr, target);
                    assert(self@ == set_cell_result(m, *cell)->Ok_0);
                }
            },
            None => {
                if SchemaColumnKind::from(&cell.value) != kind {
                    return Err(SheetError::TypeMismatch);
                }
                self.lookups.remove(addr);
                self.literals.insert(addr, cell.value.clone());
                proof {
                    lemma_remove_acyclic(m.lookups, addr);
                    assert(self@ == set_cell_result(m, *cell)->Ok_0);
                }
            },
        }
        Ok(())
    }

    /// The source cell of the lookup at position `k`.
    pub closed spec fn lookup_source(&self, k: int) -> CellAddr {
        self.lookups.entry_seq()[k].0
    }

    pub closed spec fn lookup_count(&self) -> nat {
        self.lookups.entry_seq().len()
    }

    /// Follows the chain from the lookup at position `start` until it meets
    /// a cell without a lookup, or one whose value `done` already holds.
    /// Returns the lookups passed on the way and the chain's value.
    fn walk_chain(&self, start: usize, done: &Vec<Option<Option<CellValue>>>) -> (r: (
        Vec<usize>,
        Option<CellValue>,
    ))
        requires
            self.wf(),
            start < self.lookup_count(),
            done@.len() == self.lookup_count(),
            forall|k: int|
                0 <= k < done@.len() && (#[trigger] done@[k]) is Some ==> done@[k]->0
                    == resolved_value(self@, self.lookup_source(k)),
        ensures
            r.1 == resolved_value(self@, self.lookup_source(start as int)),
            forall|x: int|
                0 <= x < r.0@.len() ==> (#[trigger] r.0@[x]) < self.lookup_count()
                    && resolved_value(self@, self.lookup_source(r.0@[x] as int)) == r.1,
            done@[start as int] is None ==> r.0@.len() > 0 && r.0@[0] == start,
    {
        let ghost e = self@.lookups;
        proof {
            self.lookups.lemma_entries();
        }
        let first = self.lookups.entry(start).0;
        assert(terminates(e, first));
        let ghost bound = choose|n: nat| ends_within(e, first, n);
        let ghost mut i: nat = 0;
        let mut stack: Vec<usize> = Vec::new();
        let mut current = first;
        loop
            invariant
                self.wf(),
                e == self@.lookups,
                first == self.lookup_source(start as int),
                start < self.lookup_count(),
                done@.len() == self.lookup_count(),
                forall|k: int|
                    0 <= k < done@.len() && (#[trigger] done@[k]) is Some ==> done@[k]->0
                        == resolved_value(self@, self.lookup_source(k)),
                ends_within(e, first, bound),
                current == walk(e, first, i),
                i <= bound,
                i == 0 ==> stack@.len() == 0,
                i > 0 ==> stack@.len() > 0 && stack@[0] == start,
                forall|x: int|
                    0 <= x < stack@.len() ==> (#[trigger] stack@[x]) < self.lookup_count()
                        && resolved_value(self@, self.lookup_source(stack@[x] as int))
                        == resolved_value(self@, first),
            decreases bound - i,
        {
            proof {
                self.lookups.lemma_entries();
                lemma_terminal_along(e, first, i);
            }
            match self.lookups.index_of(current) {
                None => {
                    proof {
                        lemma_terminal_at_rest(e, current);
                    }
                    let value = match self.literals.get(current) {
                        Some(v) => Some(v.clone()),
                        None => None,
                    };
                    return (stack, value);
                },
                Some(k) => {
                    proof {
                        if i == 0 {
                            assert(k == start) by {
                                if k != start {
                                    assert(self.lookups.entry_seq()[k as int].0
                                        != self.lookups.entry_seq()[start as int].0);
                                }
                            }
                        }
                    }
                    match &done[k] {
                        Some(v) => {
                            return (stack, clone_value(v));
                        },
                        None => {
                            proof {
                                if i >= bound {
                                    lemma_walk_stays(e, first, bound, i);
                                }
                                lemma_walk_step(e, first, i);
                            }
                            stack.push(k);
                            current = self.lookups.entry(k).1;
                            proof {
                                i = i + 1;
                            }
                        },
                    }
                },
            }
        }
    }

    /// The value of the chain of each lookup, in the order of `lookup_source`.
    fn resolve_lookups(&self) -> (r: Vec<Option<CellValue>>)
        requires
            self.wf(),
        ensures
            r@.len() == self.lookup_count(),
            forall|k: int|
                0 <= k < r@.len() ==> #[trigger] r@[k] == resolved_value(
                    self@,
                    self.lookup_source(k),
                ),
    {
        let n = self.lookups.len();
        let mut done: Vec<Option<Option<CellValue>>> = Vec::new();
        while done.len() < n
            invariant
                n == self.lookup_count(),
                done@.len() <= n,
                forall|k: int| 0 <= k < done@.len() ==> (#[trigger] done@[k]) is None,
            decreases n - done@.len(),
        {
            done.push(None);
        }
        let mut start: usize = 0;
        while start < n
            invariant
                self.wf(),
                n == self.lookup_count(),
                start <= n,
                done@.len() == n,
                forall|k: int|
                    0 <= k < done@.len() && (#[trigger] done@[k]) is Some ==> done@[k]->0
                        == resolved_value(self@, self.lookup_source(k)),
                forall|k: int| 0 <= k < start ==> (#[trigger] done@[k]) is Some,
            decreases n - start,
        {
            if done[start].is_none() {
                let (stack, value) = self.walk_chain(start, &done);
                let mut j: usize = 0;
                while j < stack.len()
                    invariant
                        n == self.lookup_count(),
                        start < n,
                        done@.len() == n,
                        j <= stack@.len(),
                        stack@.len() > 0 && stack@[0] == start,
                        forall|x: int|
                            0 <= x < stack@.len() ==> (#[trigger] stack@[x]) < n
                                && resolved_value(self@, self.lookup_source(stack@[x] as int))
                                == value,
                        forall|k: int|
                            0 <= k < done@.len() && (#[trigger] done@[k]) is Some ==> done@[k]->0
                                == resolved_value(self@, self.lookup_source(k)),
                        forall|k: int| 0 <= k < start ==> (#[trigger] done@[k]) is Some,
                        j > 0 ==> done@[start as int] is Some,
                    decreases stack@.len() - j,
                {
                    let k = stack[j];
                    done.set(k, Some(clone_value(&value)));
                    j = j + 1;
                }
            }
            start = start + 1;
        }
        let mut out: Vec<Option<CellValue>> = Vec::new();
        let mut k: usize = 0;
        while k < n
            invariant
                n == self.lookup_count(),
                k <= n,
                done@.len() == n,
                forall|x: int|
                    0 <= x < done@.len() && (#[trigger] done@[x]) is Some ==> done@[x]->0
                        == resolved_value(self@, self.lookup_source(x)),
                forall|x: int| 0 <= x < n ==> (#[trigger] done@[x]) is Some,
                out@.len() == k,
                forall|x: int|
                    0 <= x < k ==> #[trigger] out@[x] == resolved_value(
                        self@,
                        self.lookup_source(x),
                    ),
            decreases n - k,
        {
            let value = match &done[k] {
                Some(v) => clone_value(v),
                None => None,
            };
            out.push(value);
            k = k + 1;
        }
        out
    }

    /// The entries of column `c`: its literals, then its lookups with the
    /// values of their chains.
    fn column_content(
        &self,
        c: usize,
        resolved: &Vec<Option<CellValue>>,
        no_lookup_nulls: bool,
    ) -> (r: Vec<SheetContentColumn>)
        requires
            self.wf(),
            resolved@.len() == self.lookup_count(),
            forall|k: int|
                0 <= k < resolved@.len() ==> #[trigger] resolved@[k] == resolved_value(
                    self@,
                    self.lookup_source(k),
                ),
        ensures
            column_matches(self@, no_lookup_nulls, c as int, r@),
    {
        let ghost m = self@;
        proof {
            self.literals.lemma_entries();
            self.lookups.lemma_entries();
        }
        let ghost lits = self.literals.entry_seq();
        let ghost lks = self.lookups.entry_seq();
        let mut out: Vec<SheetContentColumn> = Vec::new();
        let n = self.literals.len();
        let first_literal = self.literals.column_start(c);
        let mut i = first_literal;
        while i < n && self.literals.entry(i).0.col == c
            invariant
                self.wf(),
                m == self@,
                lits == self.literals.entry_seq(),
                n == lits.len(),
                first_literal <= i <= n,
                forall|x: int| 0 <= x < first_literal ==> (#[trigger] lits[x]).0.col < c,
                forall|x: int| first_literal <= x < n ==> (#[trigger] lits[x]).0.col >= c,
                forall|j: int, k: int|
                    0 <= j < k < out@.len() ==> (#[trigger] out@[j]).row != (
                    #[trigger] out@[k]).row,
                forall|j: int|
                    0 <= j < out@.len() ==> cell_output(
                        m,
                        no_lookup_nulls,
                        (CellAddr { col: c, row: (#[trigger] out@[j]).row }),
                    ) == Some(out@[j].value),
                forall|j: int|
                    0 <= j < out@.len() ==> exists|x: int|
                        0 <= x < i && (#[trigger] lits[x]).0 == (CellAddr {
                            col: c,
                            row: (#[trigger] out@[j]).row,
                        }),
                forall|x: int|
                    0 <= x < i && (#[trigger] lits[x]).0.col == c ==> exists|j: int|
                        0 <= j < out@.len() && (#[trigger] out@[j]).row == lits[x].0.row,
            decreases n - i,
        {
            proof {
                self.literals.lemma_entries();
            }
            let entry = self.literals.entry(i);
            if entry.0.col == c {
                let ghost before = out@;
                out.push(SheetContentColumn { row: entry.0.row, value: Some(entry.1.clone()) });
                proof {
                    assert forall|j: int| 0 <= j < before.len() implies (#[trigger] out@[j]).row
                        != entry.0.row by {
                        assert(out@[j] == before[j]);
                        let x = choose|x: int|
                            0 <= x < i && (#[trigger] lits[x]).0 == (CellAddr {
                                col: c,
                                row: before[j].row,
                            });
                        assert(lits[x].0 != lits[i as int].0);
                    }
                    assert(out@[before.len() as int].row == lits[i as int].0.row);
                    assert forall|j: int|
                        0 <= j < out@.len() implies exists|x: int|
                            0 <= x < i + 1 && (#[trigger] lits[x]).0 == (CellAddr {
                                col: c,
                                row: (#[trigger] out@[j]).row,
                            }) by {
                        if j < before.len() {
                            assert(out@[j] == before[j]);
                        } else {
                            assert(lits[i as int].0 == (CellAddr { col: c, row: out@[j].row }));
                        }
                    }
                    assert forall|x: int|
                        0 <= x < i + 1 && (#[trigger] lits[x]).0.col == c implies exists|j: int|
                            0 <= j < out@.len() && (#[trigger] out@[j]).row == lits[x].0.row by {
                        if x < i {
                            let j = choose|j: int|
                                0 <= j < before.len() && (#[trigger] before[j]).row
                                    == lits[x].0.row;
                            assert(out@[j] == before[j]);
                        } else {
                            assert(out@[before.len() as int].row == lits[x].0.row);
                        }
                    }
                }
            }
            i = i + 1;
        }
        proof {
            self.literals.lemma_entries();
            assert forall|x: int| i <= x < n implies (#[trigger] lits[x]).0.col != c by {
                if x > i {
                    assert(addr_lt(lits[i as int].0, lits[x].0));
                }
            }
        }
        let l = self.lookups.len();
        let first_lookup = self.lookups.column_start(c);
        let mut k = first_lookup;
        while k < l && self.lookups.entry(k).0.col == c
            invariant
                first_lookup <= k,
                forall|x: int| 0 <= x < first_lookup ==> (#[trigger] lks[x]).0.col < c,
                forall|x: int| first_lookup <= x < l ==> (#[trigger] lks[x]).0.col >= c,
                self.wf(),
                m == self@,
                lits == self.literals.entry_seq(),
                lks == self.lookups.entry_seq(),
                n == lits.len(),
                l == lks.len(),
                resolved@.len() == l,
                forall|x: int|
                    0 <= x < resolved@.len() ==> #[trigger] resolved@[x] == resolved_value(
                        m,
                        lks[x].0,
                    ),
                k <= l,
                forall|j: int, y: int|
                    0 <= j < y < out@.len() ==> (#[trigger] out@[j]).row != (
                    #[trigger] out@[y]).row,
                forall|j: int|
                    0 <= j < out@.len() ==> cell_output(
                        m,
                        no_lookup_nulls,
                        (CellAddr { col: c, row: (#[trigger] out@[j]).row }),
                    ) == Some(out@[j].value),
                forall|j: int|
                    0 <= j < out@.len() ==> (exists|x: int|
                        0 <= x < n && (#[trigger] lits[x]).0 == (CellAddr {
                            col: c,
                            row: (#[trigger] out@[j]).row,
                        })) || (exists|x: int|
                        0 <= x < k && (#[trigger] lks[x]).0 == (CellAddr {
                            col: c,
                            row: out@[j].row,
                        })),
                forall|x: int|
                    0 <= x < n && (#[trigger] lits[x]).0.col == c ==> exists|j: int|
                        0 <= j < out@.len() && (#[trigger] out@[j]).row == lits[x].0.row,
                forall|x: int|
                    0 <= x < k && (#[trigger] lks[x]).0.col == c && cell_output(
                        m,
                        no_lookup_nulls,
                        lks[x].0,
                    ) is Some ==> exists|j: int|
                        0 <= j < out@.len() && (#[trigger] out@[j]).row == lks[x].0.row,
            decreases l - k,
        {
            proof {
                self.literals.lemma_entries();
                self.lookups.lemma_entries();
            }
            let entry = self.lookups.entry(k);
            if entry.0.col == c && !(no_lookup_nulls && resolved[k].is_none()) {
                let ghost before = out@;
                let a = entry.0;
                assert(m.lookups.contains_key(a));
                assert(!m.literals.contains_key(a));
                out.push(SheetContentColumn { row: a.row, value: clone_value(&resolved[k]) });
                proof {
                    assert forall|j: int| 0 <= j < before.len() implies (#[trigger] out@[j]).row
                        != a.row by {
                        assert(out@[j] == before[j]);
                        if exists|x: int|
                            0 <= x < n && (#[trigger] lits[x]).0 == (CellAddr {
                                col: c,
                                row: before[j].row,
                            }) {
                            let x = choose|x: int|
                                0 <= x < n && (#[trigger] lits[x]).0 == (CellAddr {
                                    col: c,
                                    row: before[j].row,
                                });
                            assert(m.literals.contains_key(lits[x].0));
                        } else {
                            let x = choose|x: int|
                                0 <= x < k && (#[trigger] lks[x]).0 == (CellAddr {
                                    col: c,
                                    row: before[j].row,
                                });
                            assert(lks[x].0 != lks[k as int].0);
                        }
                    }
                    assert forall|j: int|
                        0 <= j < out@.len() implies (exists|x: int|
                            0 <= x < n && (#[trigger] lits[x]).0 == (CellAddr {
                                col: c,
                                row: (#[trigger] out@[j]).row,
                            })) || (exists|x: int|
                            0 <= x < k + 1 && (#[trigger] lks[x]).0 == (CellAddr {
                                col: c,
                                row: out@[j].row,
                            })) by {
                        if j < before.len() {
                            assert(out@[j] == before[j]);
                        } else {
                            assert(lks[k as int].0 == (CellAddr { col: c, row: out@[j].row }));
                        }
                    }
                    assert forall|x: int|
                        0 <= x < n && (#[trigger] lits[x]).0.col == c implies exists|j: int|
                            0 <= j < out@.len() && (#[trigger] out@[j]).row == lits[x].0.row by {
                        let j = choose|j: int|
                            0 <= j < before.len() && (#[trigger] before[j]).row == lits[x].0.row;
                        assert(out@[j] == before[j]);
                    }
                    assert forall|x: int|
                        0 <= x < k + 1 && (#[trigger] lks[x]).0.col == c && cell_output(
                            m,
                            no_lookup_nulls,
                            lks[x].0,
                        ) is Some implies exists|j: int|
                            0 <= j < out@.len() && (#[trigger] out@[j]).row == lks[x].0.row by {
                        if x < k {
                            let j = choose|j: int|
                                0 <= j < before.len() && (#[trigger] before[j]).row
                                    == lks[x].0.row;
                            assert(out@[j] == before[j]);
                        } else {
                            assert(out@[before.len() as int].row == lks[x].0.row);
                        }
                    }
                }
            }
            k = k + 1;
        }
        proof {
            self.literals.lemma_entries();
            self.lookups.lemma_entries();
            assert forall|x: int| k <= x < l implies (#[trigger] lks[x]).0.col != c by {
                if x > k {
                    assert(addr_lt(lks[k as int].0, lks[x].0));
                }
            }
            assert forall|row: i64|
                (#[trigger] cell_output(m, no_lookup_nulls, (CellAddr { col: c, row }))) is Some
                    implies exists|j: int|
                    0 <= j < out@.len() && (#[trigger] out@[j]).row == row by {
                let a = CellAddr { col: c, row };
                if m.literals.contains_key(a) {
                    let x = choose|x: int| 0 <= x < n && (#[trigger] lits[x]).0 == a;
                } else {
                    let x = choose|x: int| 0 <= x < l && (#[trigger] lks[x]).0 == a;
                }
            }
        }
        out
    }

    /// The resolved content of the sheet: for each column, in schema order,
    /// its literals and the values of its lookups' chains.
    pub fn content(&self, no_lookup_nulls: bool) -> (r: SheetContent)
        requires
            self.wf(),
        ensures
            content_matches(self@, no_lookup_nulls, r),
    {
        let resolved = self.resolve_lookups();
        let mut columns: Vec<(String, Vec<SheetContentColumn>)> = Vec::new();
        let n = self.schema.columns.len();
        let mut c: usize = 0;
        while c < n
            invariant
                self.wf(),
                n == self@.columns.len(),
                resolved@.len() == self.lookup_count(),
                forall|k: int|
                    0 <= k < resolved@.len() ==> #[trigger] resolved@[k] == resolved_value(
                        self@,
                        self.lookup_source(k),
                    ),
                c <= n,
                columns@.len() == c,
                forall|i: int|
                    0 <= i < c ==> (#[trigger] columns@[i]).0@ == self@.columns[i].0
                        && column_matches(self@, no_lookup_nulls, i, columns@[i].1@),
            decreases n - c,
        {
            let name = self.schema.columns[c].name.clone();
            let entries = self.column_content(c, &resolved, no_lookup_nulls);
            columns.push((name, entries));
            c = c + 1;
        }
        SheetContent { columns }
    }
}

} // verus!
