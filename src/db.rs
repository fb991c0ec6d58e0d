//! The registry of sheets: identifier allocation, and the three operations
//! of the store.
use vstd::prelude::*;

use rand::distributions::{Alphanumeric, DistString};

use crate::engine::{
    content_matches, empty_model, model_wf, set_cell_result, Sheet, SheetError, SheetModel,
};
use crate::sheet::{Cell, Schema, SheetContent};

verus! {

/// The number of characters of a sheet identifier.
pub const SHEET_ID_LENGTH: usize = 24;

/// How many random identifiers `Db::new_sheet` draws before it gives up.
/// With 62^24 possible identifiers, even one collision is vanishingly
/// unlikely.
pub const SHEET_ID_ATTEMPTS: u32 = 16;

pub open spec fn is_ascii_alphanumeric(c: char) -> bool {
    let u = c as u32;
    (0x30 <= u <= 0x39) || (0x41 <= u <= 0x5A) || (0x61 <= u <= 0x7A)
}

/// The shape of a sheet identifier: a fixed number of ASCII letters and
/// digits.
pub open spec fn is_sheet_id_text(s: Seq<char>) -> bool {
    &&& s.len() == SHEET_ID_LENGTH
    &&& forall|i: int| 0 <= i < s.len() ==> is_ascii_alphanumeric(#[trigger] s[i])
}

/// Relies on rand's `Alphanumeric` distribution, drawn through
/// `DistString::sample_string` from `thread_rng`: `len` characters, each one
/// of `A-Z`, `a-z` and `0-9`. (`thread_rng` panics if the operating system's
/// random source cannot seed it.)
#[verifier::external_body]
fn random_alphanumeric(len: usize) -> (r: String)
    ensures
        r@.len() == len,
        forall|i: int| 0 <= i < r@.len() ==> is_ascii_alphanumeric(#[trigger] r@[i]),
{
    Alphanumeric.sample_string(&mut rand::thread_rng(), len)
}

/// Why a text is not a sheet identifier.
#[derive(Clone, Copy, Debug, PartialEq, Eq, Structural)]
pub enum SheetIdError {
    InvalidLength,
    InvalidContent,
}

/// The identifier of a sheet.
#[derive(Debug)]
pub struct SheetId(String);

impl View for SheetId {
    type V = Seq<char>;

    closed spec fn view(&self) -> Seq<char> {
        self.0@
    }
}

impl Clone for SheetId {
    fn clone(&self) -> (r: Self)
        ensures
            r@ == self@,
    {
        proof {
            use_type_invariant(self);
        }
        SheetId(self.0.clone())
    }
}

fn alphanumeric_at(c: char) -> (r: bool)
    ensures
        r == is_ascii_alphanumeric(c),
{
    let u = c as u32;
    (0x30 <= u && u <= 0x39) || (0x41 <= u && u <= 0x5A) || (0x61 <= u && u <= 0x7A)
}

impl SheetId {
    #[verifier::type_invariant]
    spec fn shaped(&self) -> bool {
        is_sheet_id_text(self.0@)
    }

    /// A new random identifier.
    pub fn generate() -> (r: SheetId)
        ensures
            is_sheet_id_text(r@),
    {
        SheetId(random_alphanumeric(SHEET_ID_LENGTH))
    }

    pub fn inner(&self) -> (r: &str)
        ensures
            r@ == self@,
            is_sheet_id_text(r@),
    {
        proof {
            use_type_invariant(self);
        }
        self.0.as_str()
    }

    /// Reads an identifier; its length is counted in characters.
    pub fn try_from(value: &str) -> (r: Result<SheetId, SheetIdError>)
        ensures
            match r {
                Ok(id) => id@ == value@ && is_sheet_id_text(value@),
                Err(SheetIdError::InvalidLength) => value@.len() != SHEET_ID_LENGTH,
                Err(SheetIdError::InvalidContent) => value@.len() == SHEET_ID_LENGTH
                    && !is_sheet_id_text(value@),
            },
    {
        let n = value.unicode_len();
        if n != SHEET_ID_LENGTH {
            return Err(SheetIdError::InvalidLength);
        }
        let mut i: usize = 0;
        while i < n
            invariant
                n == value@.len(),
                n == SHEET_ID_LENGTH,
                i <= n,
                forall|k: int| 0 <= k < i ==> is_ascii_alphanumeric(#[trigger] value@[k]),
            decreases n - i,
        {
            if !alphanumeric_at(value.get_char(i)) {
                assert(!is_ascii_alphanumeric(value@[i as int]));
                return Err(SheetIdError::InvalidContent);
            }
            i = i + 1;
        }
        Ok(SheetId(String::from_str(value)))
    }

    fn same(&self, other: &SheetId) -> (r: bool)
        ensures
            r == (self@ == other@),
    {
        self.0 == other.0
    }
}

/// The store: every sheet, by identifier.
pub struct Db {
    sheets: Vec<(SheetId, Sheet)>,
}

impl Db {
    pub closed spec fn has_id(&self, id: Seq<char>) -> bool {
        exists|i: int| 0 <= i < self.sheets@.len() && (#[trigger] self.sheets@[i]).0@ == id
    }

    pub closed spec fn view(&self) -> Map<Seq<char>, SheetModel> {
        Map::new(
            |id: Seq<char>| self.has_id(id),
            |id: Seq<char>|
                self.sheets@[choose|i: int|
                    0 <= i < self.sheets@.len() && (#[trigger] self.sheets@[i]).0@ == id].1@,
        )
    }

    pub closed spec fn wf(&self) -> bool {
        &&& forall|i: int, j: int|
            0 <= i < j < self.sheets@.len() ==> (#[trigger] self.sheets@[i]).0@ != (
            #[trigger] self.sheets@[j]).0@
        &&& forall|i: int| 0 <= i < self.sheets@.len() ==> (#[trigger] self.sheets@[i]).1.wf()
    }

    proof fn lemma_sheet_at(&self, i: int)
        requires
            self.wf(),
            0 <= i < self.sheets@.len(),
        ensures
            self@.contains_key(self.sheets@[i].0@),
            self@[self.sheets@[i].0@] == self.sheets@[i].1@,
    {
        let id = self.sheets@[i].0@;
        assert(self.has_id(id));
        let j = choose|j: int| 0 <= j < self.sheets@.len() && (#[trigger] self.sheets@[j]).0@ == id;
        if j != i {
            if j < i {
                assert(self.sheets@[j].0@ != self.sheets@[i].0@);
            } else {
                assert(self.sheets@[i].0@ != self.sheets@[j].0@);
            }
        }
    }

    /// Every sheet of a well-formed store meets the sheet invariants.
    pub proof fn lemma_sheets_wf(&self)
        requires
            self.wf(),
        ensures
            forall|id: Seq<char>| #[trigger] self@.contains_key(id) ==> model_wf(self@[id]),
    {
        assert forall|id: Seq<char>| #[trigger] self@.contains_key(id) implies model_wf(
            self@[id],
        ) by {
            let i = choose|i: int|
                0 <= i < self.sheets@.len() && (#[trigger] self.sheets@[i]).0@ == id;
            self.lemma_sheet_at(i);
            self.sheets@[i].1.lemma_wf();
        }
    }

    /// An empty store.
    pub fn new_memory() -> (r: Db)
        ensures
            r.wf(),
            r@ == Map::<Seq<char>, SheetModel>::empty(),
    {
        let r = Db { sheets: Vec::new() };
        assert(r@ =~= Map::<Seq<char>, SheetModel>::empty());
        r
    }

    fn find_sheet(&self, sheetid: &SheetId) -> (r: Option<usize>)
        requires
            self.wf(),
        ensures
            match r {
                Some(i) => i < self.sheets@.len() && self.sheets@[i as int].0@ == sheetid@
                    && self@.contains_key(sheetid@) && self@[sheetid@] == self.sheets@[i as int].1@,
                None => !self@.contains_key(sheetid@),
            },
    {
        let n = self.sheets.len();
        let mut i: usize = 0;
        while i < n
            invariant
                self.wf(),
                n == self.sheets@.len(),
                i <= n,
                forall|k: int| 0 <= k < i ==> (#[trigger] self.sheets@[k]).0@ != sheetid@,
            decreases n - i,
        {
            if self.sheets[i].0.same(sheetid) {
                proof {
                    self.lemma_sheet_at(i as int);
                }
                return Some(i);
            }
            i = i + 1;
        }
        None
    }

    /// Whether a sheet with this identifier exists.
    pub fn sheet_exists(&self, sheetid: &SheetId) -> (r: bool)
        requires
            self.wf(),
        ensures
            r == self@.contains_key(sheetid@),
    {
        self.find_sheet(sheetid).is_some()
    }

    /// Replacing the sheet at position `i` by one of the same identifier
    /// replaces its state in the view.
    proof fn lemma_replace(before: &Db, after: &Db, i: int)
        requires
            before.wf(),
            0 <= i < before.sheets@.len(),
            after.sheets@.len() == before.sheets@.len(),
            after.sheets@[i].0@ == before.sheets@[i].0@,
            after.sheets@[i].1.wf(),
            forall|k: int|
                0 <= k < after.sheets@.len() && k != i ==> after.sheets@[k] == before.sheets@[k],
        ensures
            after.wf(),
            after@ == before@.insert(before.sheets@[i].0@, after.sheets@[i].1@),
    {
        let b = before.sheets@;
        let s = after.sheets@;
        let id = b[i].0@;
        let model = s[i].1@;
        assert forall|x: int, y: int| 0 <= x < y < s.len() implies (#[trigger] s[x]).0@ != (
        #[trigger] s[y]).0@ by {
            assert(b[x].0@ != b[y].0@);
        }
        assert forall|x: int| 0 <= x < s.len() implies (#[trigger] s[x]).1.wf() by {
            assert(b[x].1.wf());
        }
        assert forall|k: Seq<char>| #[trigger] after@.contains_key(k) == before@.insert(
            id,
            model,
        ).contains_key(k) by {
            if after.has_id(k) {
                let x = choose|x: int| 0 <= x < s.len() && (#[trigger] s[x]).0@ == k;
                assert(b[x].0@ == k);
                assert(before.has_id(k));
            }
            if before.has_id(k) {
                let x = choose|x: int| 0 <= x < b.len() && (#[trigger] b[x]).0@ == k;
                assert(s[x].0@ == k);
                assert(after.has_id(k));
            }
            if k == id {
                assert(s[i].0@ == id);
                assert(after.has_id(k));
            }
        }
        assert forall|k: Seq<char>| #[trigger] after@.contains_key(k) implies after@[k]
            == before@.insert(id, model)[k] by {
            let x = choose|x: int| 0 <= x < s.len() && (#[trigger] s[x]).0@ == k;
            after.lemma_sheet_at(x);
            if x != i {
                before.lemma_sheet_at(x);
            }
        }
        assert(after@ =~= before@.insert(id, model));
    }

    /// Provisions a sheet under a given identifier: fails with
    /// `InvalidSchema` on an invalid schema, and with `StorageFailure` when
    /// the identifier is taken.
    pub fn new_sheet_with_id(&mut self, schema: &Schema, sheetid: &SheetId) -> (r: Result<
        (),
        SheetError,
    >)
        requires
            old(self).wf(),
        ensures
            final(self).wf(),
            !schema.valid() ==> r == Err::<(), SheetError>(SheetError::InvalidSchema),
            schema.valid() && old(self)@.contains_key(sheetid@) ==> r == Err::<(), SheetError>(
                SheetError::StorageFailure,
            ),
            schema.valid() && !old(self)@.contains_key(sheetid@) ==> r is Ok,
            r is Ok ==> final(self)@ == old(self)@.insert(sheetid@, empty_model(*schema)),
            r is Err ==> final(self)@ == old(self)@,
    {
        if !schema.is_valid() {
            return Err(SheetError::InvalidSchema);
        }
        if self.sheet_exists(sheetid) {
            return Err(SheetError::StorageFailure);
        }
        let ghost id = sheetid@;
        let sheet = Sheet::new(schema);
        let ghost before = self.sheets@;
        self.sheets.push((sheetid.clone(), sheet));
        proof {
            let s = self.sheets@;
            let n = before.len() as int;
            assert forall|x: int| 0 <= x < n implies (#[trigger] s[x]).0@ != id by {
                assert(s[x] == before[x]);
                if before[x].0@ == id {
                    assert(old(self).has_id(id));
                }
            }
            assert forall|x: int, y: int| 0 <= x < y < s.len() implies (#[trigger] s[x]).0@ != (
            #[trigger] s[y]).0@ by {
                if y < n {
                    assert(before[x].0@ != before[y].0@);
                }
            }
            assert forall|k: Seq<char>| #[trigger] self@.contains_key(k) == old(self)@.insert(
                id,
                empty_model(*schema),
            ).contains_key(k) by {
                if self.has_id(k) && k != id {
                    let x = choose|x: int| 0 <= x < s.len() && (#[trigger] s[x]).0@ == k;
                    assert(before[x].0@ == k);
                    assert(old(self).has_id(k));
                }
                if old(self).has_id(k) {
                    let x = choose|x: int| 0 <= x < before.len() && (#[trigger] before[x]).0@ == k;
                    assert(s[x].0@ == k);
                    assert(self.has_id(k));
                }
                if k == id {
                    assert(s[n].0@ == id);
                    assert(self.has_id(k));
                }
            }
            assert forall|k: Seq<char>| #[trigger] self@.contains_key(k) implies self@[k]
                == old(self)@.insert(id, empty_model(*schema))[k] by {
                let x = choose|x: int| 0 <= x < s.len() && (#[trigger] s[x]).0@ == k;
                self.lemma_sheet_at(x);
                if x != n {
                    assert(s[x] == before[x]);
                    old(self).lemma_sheet_at(x);
                }
            }
            assert(self@ =~= old(self)@.insert(id, empty_model(*schema)));
        }
        Ok(())
    }

    /// Provisions a sheet for a valid schema under a fresh random
    /// identifier, which it returns. Gives up with `StorageFailure` if every
    /// identifier drawn is taken.
    pub fn new_sheet(&mut self, schema: &Schema) -> (r: Result<SheetId, SheetError>)
        requires
            old(self).wf(),
        ensures
            final(self).wf(),
            schema.valid() && old(self)@.dom() =~= Set::<Seq<char>>::empty() ==> r is Ok,
            match r {
                Ok(id) => schema.valid() && is_sheet_id_text(id@) && !old(self)@.contains_key(id@)
                    && final(self)@ == old(self)@.insert(id@, empty_model(*schema)),
                Err(e) => final(self)@ == old(self)@ && e == (if schema.valid() {
                    SheetError::StorageFailure
                } else {
                    SheetError::InvalidSchema
                }),
            },
    {
        if !schema.is_valid() {
            return Err(SheetError::InvalidSchema);
        }
        let mut attempt: u32 = 0;
        while attempt < SHEET_ID_ATTEMPTS
            invariant
                self.wf(),
                self@ == old(self)@,
                schema.valid(),
                attempt > 0 ==> !(old(self)@.dom() =~= Set::<Seq<char>>::empty()),
            decreases SHEET_ID_ATTEMPTS - attempt,
        {
            let candidate = SheetId::generate();
            if !self.sheet_exists(&candidate) {
                match self.new_sheet_with_id(schema, &candidate) {
                    Ok(()) => {
                        return Ok(candidate);
                    },
                    Err(e) => {
                        return Err(e);
                    },
                }
            }
            assert(old(self)@.dom().contains(candidate@));
            attempt = attempt + 1;
        }
        Err(SheetError::StorageFailure)
    }

    /// Writes one cell of a sheet; see `set_cell_result`.
    pub fn insert_cell(&mut self, sheetid: &SheetId, cell: &Cell) -> (r: Result<(), SheetError>)
        requires
            old(self).wf(),
        ensures
            final(self).wf(),
            !old(self)@.contains_key(sheetid@) ==> r == Err::<(), SheetError>(
                SheetError::SheetNotFound,
            ) && final(self)@ == old(self)@,
            old(self)@.contains_key(sheetid@) ==> match set_cell_result(
                old(self)@[sheetid@],
                *cell,
            ) {
                Ok(m) => r is Ok && final(self)@ == old(self)@.insert(sheetid@, m),
                Err(e) => r == Err::<(), SheetError>(e) && final(self)@ == old(self)@,
            },
    {
        let i = match self.find_sheet(sheetid) {
            Some(i) => i,
            None => return Err(SheetError::SheetNotFound),
        };
        let ghost before = *self;
        let mut entry = self.sheets.remove(i);
        let r = entry.1.set_cell(cell);
        self.sheets.insert(i, entry);
        proof {
            Db::lemma_replace(&before, self, i as int);
            if r is Err {
                assert(before@.insert(sheetid@, before@[sheetid@]) =~= before@);
            }
        }
        r
    }

    /// The resolved content of a sheet.
    pub fn get_sheet(&self, sheetid: &SheetId, no_lookup_nulls: bool) -> (r: Result<
        SheetContent,
        SheetError,
    >)
        requires
            self.wf(),
        ensures
            !self@.contains_key(sheetid@) ==> r == Err::<SheetContent, SheetError>(
                SheetError::SheetNotFound,
            ),
            self@.contains_key(sheetid@) ==> r is Ok && content_matches(
                self@[sheetid@],
                no_lookup_nulls,
                r->Ok_0,
            ),
    {
        match self.find_sheet(sheetid) {
            Some(i) => Ok(self.sheets[i].1.content(no_lookup_nulls)),
            None => Err(SheetError::SheetNotFound),
        }
    }
}

} // verus!
