use vstd::prelude::*;

use crate::lookup_syntax::{lookup_target, parse_lookup};

verus! {

/// The declared type of a column.
#[derive(Clone, Copy, Debug, PartialEq, Eq, Structural)]
pub enum SchemaColumnKind {
    Boolean,
    Int,
    Double,
    String,
}

/// The storage type name of each kind.
pub open spec fn sql_text_of(kind: SchemaColumnKind) -> Seq<char> {
    match kind {
        SchemaColumnKind::Boolean => seq!['B', 'O', 'O', 'L', 'E', 'A', 'N'],
        SchemaColumnKind::Int => seq!['I', 'N', 'T', 'E', 'G', 'E', 'R'],
        SchemaColumnKind::Double => seq!['R', 'E', 'A', 'L'],
        SchemaColumnKind::String => seq!['T', 'E', 'X', 'T'],
    }
}

/// The kind whose storage type name is `text`, if any.
pub open spec fn kind_of_sql_text(text: Seq<char>) -> Option<SchemaColumnKind> {
    if text == sql_text_of(SchemaColumnKind::Boolean) {
        Some(SchemaColumnKind::Boolean)
    } else if text == sql_text_of(SchemaColumnKind::Int) {
        Some(SchemaColumnKind::Int)
    } else if text == sql_text_of(SchemaColumnKind::Double) {
        Some(SchemaColumnKind::Double)
    } else if text == sql_text_of(SchemaColumnKind::String) {
        Some(SchemaColumnKind::String)
    } else {
        None
    }
}

impl SchemaColumnKind {
    pub fn get_sql_text(&self) -> (r: &'static str)
        ensures
            r@ == sql_text_of(*self),
    {
        match self {
            SchemaColumnKind::Boolean => {
                proof {
                    reveal_strlit("BOOLEAN");
                }
                "BOOLEAN"
            },
            SchemaColumnKind::Int => {
                proof {
                    reveal_strlit("INTEGER");
                }
                "INTEGER"
            },
            SchemaColumnKind::Double => {
                proof {
                    reveal_strlit("REAL");
                }
                "REAL"
            },
            SchemaColumnKind::String => {
                proof {
                    reveal_strlit("TEXT");
                }
                "TEXT"
            },
        }
    }

    pub fn from_sql_text(text: &str) -> (r: Option<SchemaColumnKind>)
        ensures
            r == kind_of_sql_text(text@),
    {
        let t = String::from_str(text);
        if t == String::from_str(SchemaColumnKind::Boolean.get_sql_text()) {
            Some(SchemaColumnKind::Boolean)
        } else if t == String::from_str(SchemaColumnKind::Int.get_sql_text()) {
            Some(SchemaColumnKind::Int)
        } else if t == String::from_str(SchemaColumnKind::Double.get_sql_text()) {
            Some(SchemaColumnKind::Double)
        } else if t == String::from_str(SchemaColumnKind::String.get_sql_text()) {
            Some(SchemaColumnKind::String)
        } else {
            None
        }
    }
}


/// One column of a schema: its name and declared kind.
#[derive(Debug, PartialEq, Eq)]
pub struct SchemaColumn {
    pub name: String,
    pub kind: SchemaColumnKind,
}

impl Clone for SchemaColumn {
    fn clone(&self) -> (r: Self)
        ensures
            r == *self,
    {
        SchemaColumn { name: self.name.clone(), kind: self.kind }
    }
}

/// An ordered list of columns.
#[derive(Debug, PartialEq, Eq)]
pub struct Schema {
    pub columns: Vec<SchemaColumn>,
}

impl Clone for Schema {
    fn clone(&self) -> (r: Self)
        ensures
            r.columns@ == self.columns@,
    {
        let mut columns: Vec<SchemaColumn> = Vec::new();
        let mut i: usize = 0;
        while i < self.columns.len()
            invariant
                i <= self.columns@.len(),
                columns@ == self.columns@.subrange(0, i as int),
            decreases self.columns@.len() - i,
        {
            columns.push(self.columns[i].clone());
            i = i + 1;
            assert(columns@ =~= self.columns@.subrange(0, i as int));
        }
        assert(self.columns@.subrange(0, i as int) =~= self.columns@);
        Schema { columns }
    }
}

/// Every name is free of double quotes, and no two names are equal.
pub open spec fn columns_valid(cols: Seq<SchemaColumn>) -> bool {
    &&& forall|i: int| 0 <= i < cols.len() ==> !(#[trigger] cols[i].name@).contains('"')
    &&& forall|i: int, j: int|
        0 <= i < j < cols.len() ==> (#[trigger] cols[i].name@) != (#[trigger] cols[j].name@)
}

fn contains_quote(s: &String) -> (r: bool)
    ensures
        r == s@.contains('"'),
{
    let n = s.as_str().unicode_len();
    let mut i: usize = 0;
    while i < n
        invariant
            n == s@.len(),
            i <= n,
            forall|k: int| 0 <= k < i ==> s@[k] != '"',
        decreases n - i,
    {
        if s.as_str().get_char(i) == '"' {
            return true;
        }
        i = i + 1;
    }
    false
}

impl Schema {
    pub open spec fn valid(&self) -> bool {
        columns_valid(self.columns@)
    }

    /// Checks that the column names are unique and free of double quotes.
    pub fn is_valid(&self) -> (r: bool)
        ensures
            r == self.valid(),
    {
        let n = self.columns.len();
        let mut i: usize = 0;
        while i < n
            invariant
                n == self.columns@.len(),
                i <= n,
                columns_valid(self.columns@.subrange(0, i as int)),
            decreases n - i,
        {
            let name = &self.columns[i].name;
            if contains_quote(name) {
                assert(!columns_valid(self.columns@));
                return false;
            }
            let mut j: usize = 0;
            while j < i
                invariant
                    n == self.columns@.len(),
                    j <= i < n,
                    name == self.columns@[i as int].name,
                    !name@.contains('"'),
                    columns_valid(self.columns@.subrange(0, i as int)),
                    forall|k: int| 0 <= k < j ==> self.columns@[k].name@ != name@,
                decreases i - j,
            {
                if self.columns[j].name == *name {
                    assert(!columns_valid(self.columns@));
                    return false;
                }
                j = j + 1;
            }
            proof {
                let prev = self.columns@.subrange(0, i as int);
                let next = self.columns@.subrange(0, i + 1);
                assert forall|x: int|
                    0 <= x < next.len() implies !(#[trigger] next[x].name@).contains('"') by {
                    assert(next[x] == self.columns@[x]);
                    if x < i {
                        assert(next[x] == prev[x]);
                        assert(!prev[x].name@.contains('"'));
                    } else {
                        assert(next[x].name == *name);
                        assert(!name@.contains('"'));
                    }
                }
                assert forall|x: int, y: int| 0 <= x < y < next.len() implies (
                #[trigger] next[x].name@) != (#[trigger] next[y].name@) by {
                    if y < i {
                        assert(next[x] == prev[x] && next[y] == prev[y]);
                        assert(prev[x].name@ != prev[y].name@);
                    } else {
                        assert(next[x] == self.columns@[x]);
                        assert(next[y] == self.columns@[i as int]);
                        assert(self.columns@[x].name@ != name@);
                    }
                }
            }
            i = i + 1;
        }
        assert(self.columns@.subrange(0, n as int) =~= self.columns@);
        true
    }
}

/// A literal cell value. A double is held as its IEEE 754 bit pattern
/// (`f64::to_bits`), which is all this library does with it.
#[derive(Debug, PartialEq)]
pub enum CellValue {
    Boolean(bool),
    Int(i64),
    Double(u64),
    String(String),
}

impl Clone for CellValue {
    fn clone(&self) -> (r: Self)
        ensures
            r == *self,
    {
        match self {
            CellValue::Boolean(b) => CellValue::Boolean(*b),
            CellValue::Int(x) => CellValue::Int(*x),
            CellValue::Double(x) => CellValue::Double(*x),
            CellValue::String(s) => CellValue::String(s.clone()),
        }
    }
}

/// The kind of a literal.
pub open spec fn value_kind(v: CellValue) -> SchemaColumnKind {
    match v {
        CellValue::Boolean(_) => SchemaColumnKind::Boolean,
        CellValue::Int(_) => SchemaColumnKind::Int,
        CellValue::Double(_) => SchemaColumnKind::Double,
        CellValue::String(_) => SchemaColumnKind::String,
    }
}

impl From<&CellValue> for SchemaColumnKind {
    fn from(value: &CellValue) -> (r: SchemaColumnKind)
        ensures
            r == value_kind(*value),
    {
        match value {
            CellValue::Boolean(_) => SchemaColumnKind::Boolean,
            CellValue::Double(_) => SchemaColumnKind::Double,
            CellValue::Int(_) => SchemaColumnKind::Int,
            CellValue::String(_) => SchemaColumnKind::String,
        }
    }
}

impl vstd::std_specs::convert::FromSpecImpl<&CellValue> for SchemaColumnKind {
    open spec fn obeys_from_spec() -> bool {
        true
    }

    open spec fn from_spec(v: &CellValue) -> SchemaColumnKind {
        value_kind(*v)
    }
}

/// A reference to the cell at `target_row` of the column named `target_col`.
#[derive(Clone, Debug, PartialEq)]
pub struct LookupCellValue {
    pub target_col: String,
    pub target_row: i64,
}

/// The reference that a value denotes: a text that reads as a lookup, with
/// a row that fits in an `i64`. Every other value is a literal.
pub open spec fn lookup_of(v: CellValue) -> Option<(Seq<char>, int)> {
    match v {
        CellValue::String(s) => lookup_target(s@),
        _ => None,
    }
}

impl CellValue {
    /// The lookup reference this value denotes, if any.
    pub fn is_lookup(&self) -> (r: Option<LookupCellValue>)
        ensures
            match r {
                Some(l) => lookup_of(*self) == Some((l.target_col@, l.target_row as int)),
                None => lookup_of(*self) is None,
            },
    {
        let CellValue::String(s) = self else {
            return None;
        };
        match parse_lookup(s.as_str()) {
            Some((target_col, target_row)) => Some(LookupCellValue { target_col, target_row }),
            None => None,
        }
    }
}

/// A write of `value` into the cell at (`column`, `row`).
#[derive(Clone, Debug, PartialEq)]
pub struct Cell {
    pub column: String,
    pub row: i64,
    pub value: CellValue,
}

/// One resolved cell of a column: `None` stands for a lookup chain that
/// ends at an empty cell.
#[derive(Clone, Debug, PartialEq)]
pub struct SheetContentColumn {
    pub row: i64,
    pub value: Option<CellValue>,
}

/// The resolved content of a sheet: for each column of the schema, in
/// schema order, its name and its non-empty cells.
#[derive(Clone, Debug, PartialEq)]
pub struct SheetContent {
    pub columns: Vec<(String, Vec<SheetContentColumn>)>,
}

} // verus!
