//! The commit rules of a store that keeps its current database as a shared,
//! immutable snapshot: a mutation works on a copy, and the copy becomes the
//! snapshot only once its bytes have been written durably.
use std::sync::Arc;
use vstd::prelude::*;
use crate::book::BookView;
use crate::codec::decode_books;
use crate::database::{Database, DecodeError};
use crate::table::has_key;

verus! {

/// Why a mutation was not committed.
#[derive(Debug, Clone, Copy, PartialEq, Eq, Structural)]
pub enum PersistError {
    /// The durable write of the new snapshot failed.
    WriteFailed,
}

impl Database {
    /// A copy of every record, in order: the start of a copy-on-write mutation.
    pub fn copy(&self) -> (d: Database)
        requires
            self.wf(),
        ensures
            d.wf(),
            d.books@ == self.books@,
    {
        let rows = self.books.values();
        let mut d = Database::new();
        let mut i: usize = 0;
        while i < rows.len()
            invariant
                rows@ == self.books@,
                self.wf(),
                i <= rows@.len(),
                d.wf(),
                d.books@ == rows@.take(i as int),
            decreases rows@.len() - i,
        {
            let b = rows[i].duplicate();
            proof {
                if has_key(d.books@, b.id) {
                    let j = choose|j: int| 0 <= j < d.books@.len() && d.books@[j].id == b.id;
                    assert(rows@[j].id == rows@[i as int].id);
                }
            }
            let inserted = d.books.insert(b);
            assert(inserted is Ok);
            assert(d.books@ =~= rows@.take(i + 1));
            i = i + 1;
        }
        assert(rows@.take(i as int) =~= self.books@);
        d
    }
}

/// The snapshot a store opens with: empty where no file exists yet, else what
/// the file's bytes decode to. A file that does not decode is an error, never
/// an empty database.
pub fn open_snapshot(existing: Option<&[u8]>) -> (r: Result<Database, DecodeError>)
    ensures
        match existing {
            None => r matches Ok(d) && d.wf() && d@ == Seq::<BookView>::empty(),
            Some(b) => match r {
                Ok(d) => d.wf() && decode_books(b@) == Some(d@),
                Err(_) => decode_books(b@) is None,
            },
        },
{
    match existing {
        None => Ok(Database::new()),
        Some(b) => Database::from_bytes(b),
    }
}

/// Ends a mutation: the candidate becomes the snapshot when its bytes were
/// written, and otherwise the current snapshot stays, untouched.
pub fn settle(current: Arc<Database>, candidate: Database, written: bool) -> (r: (
    Arc<Database>,
    Result<(), PersistError>,
))
    ensures
        written ==> *r.0 == candidate && r.1 is Ok,
        !written ==> r.0 == current && r.1 == Err::<(), PersistError>(PersistError::WriteFailed),
{
    if written {
        (Arc::new(candidate), Ok(()))
    } else {
        (current, Err(PersistError::WriteFailed))
    }
}

} // verus!
