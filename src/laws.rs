//! Properties of the store that span several operations or hold of every
//! state, proved over the abstract sheet state.
use vstd::prelude::*;

use crate::chain::{
    acyclic, lemma_acyclic_no_cycle, lemma_insert_acyclic, lemma_remove_acyclic,
    lemma_terminal_at_rest, lemma_terminal_follow, no_cycle, reaches, terminal, walk,
};
use crate::engine::{
    cell_output, column_index, content_matches, model_wf, resolved_value, set_cell_result,
    SheetError, SheetModel,
};
use crate::sheet::{lookup_of, value_kind, Cell, CellValue, SheetContent, SheetContentColumn};
use crate::table::CellAddr;

verus! {

/// The state after writing `cell`: the new state, or the old one on error.
pub open spec fn state_after(m: SheetModel, cell: Cell) -> SheetModel {
    match set_cell_result(m, cell) {
        Ok(m1) => m1,
        Err(_) => m,
    }
}

/// The cell that `cell` writes, once its column is known to exist.
pub open spec fn written_addr(m: SheetModel, cell: Cell) -> CellAddr {
    CellAddr { col: column_index(m.columns, cell.column@)->Some_0 as usize, row: cell.row }
}

/// A successful write keeps the sheet invariants; in particular the lookups
/// never form a cycle, self-loops included.
pub proof fn set_cell_keeps_invariants(m: SheetModel, cell: Cell)
    requires
        model_wf(m),
    ensures
        model_wf(state_after(m, cell)),
        no_cycle(state_after(m, cell).lookups),
{
    if let Ok(m1) = set_cell_result(m, cell) {
        let c = column_index(m.columns, cell.column@)->Some_0;
        let a = CellAddr { col: c as usize, row: cell.row };
        match lookup_of(cell.value) {
            None => {
                lemma_remove_acyclic(m.lookups, a);
            },
            Some((name, row)) => {
                let tc = column_index(m.columns, name)->Some_0;
                let t = CellAddr { col: tc as usize, row: row as i64 };
                lemma_insert_acyclic(m.lookups, a, t);
            },
        }
    }
    lemma_acyclic_no_cycle(state_after(m, cell).lookups);
}

/// Repeating a write changes nothing: the second call has the same outcome
/// as the first and leaves the state as the first left it.
pub proof fn set_cell_idempotent(m: SheetModel, cell: Cell)
    requires
        model_wf(m),
    ensures
        set_cell_result(state_after(m, cell), cell) == set_cell_result(m, cell),
        state_after(state_after(m, cell), cell) == state_after(m, cell),
{
    if let Ok(m1) = set_cell_result(m, cell) {
        let c = column_index(m.columns, cell.column@)->Some_0;
        let a = CellAddr { col: c as usize, row: cell.row };
        match lookup_of(cell.value) {
            None => {
                assert(m1.literals.insert(a, cell.value) =~= m1.literals);
                assert(m1.lookups.remove(a) =~= m1.lookups);
            },
            Some((name, row)) => {
                let tc = column_index(m.columns, name)->Some_0;
                let t = CellAddr { col: tc as usize, row: row as i64 };
                lemma_insert_acyclic(m.lookups, a, t);
                assert(m1.literals.remove(a) =~= m1.literals);
                assert(m1.lookups.insert(a, t) =~= m1.lookups);
            },
        }
    }
}

/// A read shows exactly the cells that `cell_output` gives, with their
/// values.
pub proof fn content_shows(
    m: SheetModel,
    no_lookup_nulls: bool,
    content: SheetContent,
    c: int,
    row: i64,
)
    requires
        content_matches(m, no_lookup_nulls, content),
        0 <= c < m.columns.len(),
    ensures
        forall|v: Option<CellValue>|
            (exists|j: int|
                0 <= j < content.columns@[c].1@.len() && #[trigger] content.columns@[c].1@[j]
                    == (SheetContentColumn { row, value: v })) <==> cell_output(
                m,
                no_lookup_nulls,
                (CellAddr { col: c as usize, row }),
            ) == Some(v),
{
    let entries = content.columns@[c].1@;
    assert forall|v: Option<CellValue>|
        (exists|j: int|
            0 <= j < entries.len() && #[trigger] entries[j] == (SheetContentColumn {
                row,
                value: v,
            })) <==> cell_output(m, no_lookup_nulls, CellAddr { col: c as usize, row }) == Some(
            v,
        ) by {
        if cell_output(m, no_lookup_nulls, CellAddr { col: c as usize, row }) == Some(v) {
            let j = choose|j: int| 0 <= j < entries.len() && (#[trigger] entries[j]).row == row;
            assert(entries[j] == (SheetContentColumn { row, value: v }));
        }
    }
}

/// Round trip: after a literal is written, a read shows that literal at
/// that cell.
pub proof fn literal_round_trip(
    m: SheetModel,
    cell: Cell,
    no_lookup_nulls: bool,
    content: SheetContent,
)
    requires
        model_wf(m),
        set_cell_result(m, cell) is Ok,
        lookup_of(cell.value) is None,
        content_matches(state_after(m, cell), no_lookup_nulls, content),
    ensures
        cell_output(state_after(m, cell), no_lookup_nulls, written_addr(m, cell)) == Some(
            Some(cell.value),
        ),
        exists|j: int|
            0 <= j < content.columns@[written_addr(m, cell).col as int].1@.len()
                && #[trigger] content.columns@[written_addr(m, cell).col as int].1@[j]
                == (SheetContentColumn { row: cell.row, value: Some(cell.value) }),
{
    let a = written_addr(m, cell);
    content_shows(state_after(m, cell), no_lookup_nulls, content, a.col as int, cell.row);
}

/// A literal of another kind than its column's is refused with
/// `TypeMismatch`, and the state stays as it was.
pub proof fn literal_kind_enforced(m: SheetModel, cell: Cell)
    requires
        column_index(m.columns, cell.column@) is Some,
        lookup_of(cell.value) is None,
        value_kind(cell.value) != m.columns[column_index(m.columns, cell.column@)->Some_0].1,
    ensures
        set_cell_result(m, cell) == Err::<SheetModel, SheetError>(SheetError::TypeMismatch),
        state_after(m, cell) == m,
{
}

/// A lookup into a column of another kind than its own is refused with
/// `TypeMismatch`, and the state stays as it was.
pub proof fn lookup_kind_enforced(m: SheetModel, cell: Cell)
    requires
        column_index(m.columns, cell.column@) is Some,
        lookup_of(cell.value) is Some,
        column_index(m.columns, lookup_of(cell.value)->Some_0.0) is Some,
        m.columns[column_index(m.columns, lookup_of(cell.value)->Some_0.0)->Some_0].1
            != m.columns[column_index(m.columns, cell.column@)->Some_0].1,
    ensures
        set_cell_result(m, cell) == Err::<SheetModel, SheetError>(SheetError::TypeMismatch),
        state_after(m, cell) == m,
{
}

proof fn lemma_chain_walk(edges: Map<CellAddr, CellAddr>, chain: Seq<CellAddr>, i: nat)
    requires
        i < chain.len(),
        forall|k: int|
            0 <= k < chain.len() - 1 ==> edges.contains_key(#[trigger] chain[k]) && edges[chain[k]]
                == chain[k + 1],
    ensures
        walk(edges, chain[0], i) == chain[i as int],
    decreases i,
{
    if i > 0 {
        lemma_chain_walk(edges, chain, (i - 1) as nat);
        crate::chain::lemma_walk_step(edges, chain[0], (i - 1) as nat);
    }
}

/// A lookup that would close a cycle is refused with `CycleDetected`, and
/// the state stays as it was: `chain` runs along lookups from the target
/// to the written cell; with one element it is a reference of a cell to
/// itself.
pub proof fn cycle_rejected(m: SheetModel, cell: Cell, chain: Seq<CellAddr>)
    requires
        column_index(m.columns, cell.column@) is Some,
        lookup_of(cell.value) is Some,
        column_index(m.columns, lookup_of(cell.value)->Some_0.0) is Some,
        m.columns[column_index(m.columns, lookup_of(cell.value)->Some_0.0)->Some_0].1
            == m.columns[column_index(m.columns, cell.column@)->Some_0].1,
        chain.len() >= 1,
        chain[0] == (CellAddr {
            col: column_index(m.columns, lookup_of(cell.value)->Some_0.0)->Some_0 as usize,
            row: lookup_of(cell.value)->Some_0.1 as i64,
        }),
        chain.last() == written_addr(m, cell),
        forall|k: int|
            0 <= k < chain.len() - 1 ==> m.lookups.contains_key(#[trigger] chain[k])
                && m.lookups[chain[k]] == chain[k + 1],
    ensures
        set_cell_result(m, cell) == Err::<SheetModel, SheetError>(SheetError::CycleDetected),
        state_after(m, cell) == m,
{
    lemma_chain_walk(m.lookups, chain, (chain.len() - 1) as nat);
    assert(reaches(m.lookups, chain[0], chain.last()));
}

proof fn lemma_chain_terminal(m: SheetModel, chain: Seq<CellAddr>, i: int)
    requires
        model_wf(m),
        0 <= i < chain.len(),
        !m.lookups.contains_key(chain.last()),
        forall|k: int|
            0 <= k < chain.len() - 1 ==> m.lookups.contains_key(#[trigger] chain[k])
                && m.lookups[chain[k]] == chain[k + 1],
    ensures
        terminal(m.lookups, chain[i]) == chain.last(),
    decreases chain.len() - i,
{
    assert(acyclic(m.lookups));
    assert(crate::chain::terminates(m.lookups, chain[i]));
    if i == chain.len() - 1 {
        lemma_terminal_at_rest(m.lookups, chain[i]);
    } else {
        lemma_chain_terminal(m, chain, i + 1);
        lemma_terminal_follow(m.lookups, chain[i]);
    }
}

/// A chain of lookups that ends at a cell holding the literal `v`
/// resolves, at each of its cells, to `v`.
pub proof fn chain_resolves(
    m: SheetModel,
    chain: Seq<CellAddr>,
    v: CellValue,
    no_lookup_nulls: bool,
)
    requires
        model_wf(m),
        chain.len() >= 1,
        m.literals.contains_key(chain.last()),
        m.literals[chain.last()] == v,
        forall|k: int|
            0 <= k < chain.len() - 1 ==> m.lookups.contains_key(#[trigger] chain[k])
                && m.lookups[chain[k]] == chain[k + 1],
    ensures
        forall|i: int|
            0 <= i < chain.len() ==> #[trigger] cell_output(m, no_lookup_nulls, chain[i]) == Some(
                Some(v),
            ),
{
    assert forall|i: int| 0 <= i < chain.len() implies #[trigger] cell_output(
        m,
        no_lookup_nulls,
        chain[i],
    ) == Some(Some(v)) by {
        lemma_chain_terminal(m, chain, i);
        if i < chain.len() - 1 {
            assert(m.lookups.contains_key(chain[i]));
            assert(resolved_value(m, chain[i]) == Some(v));
        }
    }
}

/// A chain of lookups that ends at an empty cell resolves, at each of its
/// lookups, to null; with `no_lookup_nulls` those cells are left out.
pub proof fn broken_chain_nulls(m: SheetModel, chain: Seq<CellAddr>)
    requires
        model_wf(m),
        chain.len() >= 1,
        !m.literals.contains_key(chain.last()),
        !m.lookups.contains_key(chain.last()),
        forall|k: int|
            0 <= k < chain.len() - 1 ==> m.lookups.contains_key(#[trigger] chain[k])
                && m.lookups[chain[k]] == chain[k + 1],
    ensures
        forall|i: int|
            0 <= i < chain.len() - 1 ==> #[trigger] cell_output(m, false, chain[i]) == Some(
                None::<CellValue>,
            ) && cell_output(m, true, chain[i]) is None,
        cell_output(m, false, chain.last()) is None,
        cell_output(m, true, chain.last()) is None,
{
    assert forall|i: int| 0 <= i < chain.len() - 1 implies #[trigger] cell_output(
        m,
        false,
        chain[i],
    ) == Some(None::<CellValue>) && cell_output(m, true, chain[i]) is None by {
        lemma_chain_terminal(m, chain, i);
        assert(m.lookups.contains_key(chain[i]));
    }
}

/// A literal written over a lookup removes the lookup, so that later
/// cycle checks walk no further from that cell; a lookup written over a
/// literal removes the literal.
pub proof fn representation_exclusive(m: SheetModel, cell: Cell)
    requires
        set_cell_result(m, cell) is Ok,
    ensures
        lookup_of(cell.value) is None ==> {
            &&& !state_after(m, cell).lookups.contains_key(written_addr(m, cell))
            &&& state_after(m, cell).literals.contains_key(written_addr(m, cell))
            &&& forall|n: nat|
                #[trigger] walk(state_after(m, cell).lookups, written_addr(m, cell), n)
                    == written_addr(m, cell)
        },
        lookup_of(cell.value) is Some ==> {
            &&& !state_after(m, cell).literals.contains_key(written_addr(m, cell))
            &&& state_after(m, cell).lookups.contains_key(written_addr(m, cell))
        },
{
}

} // verus!
