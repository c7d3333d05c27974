use vstd::prelude::*;
use crate::book::{Book, BookView, contains_text, lower_of, lowercase, title_matches_folded};
use crate::codec::{
    book_encodable, books_encodable, decode_books, enc_books, enc_u64, encode_books, ids_unique,
    read_books, read_u64, tag, lemma_read_books_len, lemma_read_books_none, lemma_repeated_id,
    lemma_round_trip, push_book, push_u64, read_book_at, read_u64_at,
};
use crate::table::{Table, TableError, has_key, keys_unique};

verus! {

/// The bytes handed to `Database::from_bytes` are not a database.
#[derive(Debug, Clone, Copy, PartialEq, Eq, Structural)]
pub struct DecodeError;

/// The store's tables: the unit that is persisted and swapped as a whole.
pub struct Database {
    pub books: Table<Book>,
}

/// The views of the records `s`, in order.
pub open spec fn views(s: Seq<Book>) -> Seq<BookView> {
    s.map_values(|b: Book| b@)
}

/// The records of `s` whose lowercased title holds the lowercased `q`, in order.
pub open spec fn titled(s: Seq<BookView>, q: Seq<char>) -> Seq<BookView>
    decreases s.len(),
{
    if s.len() == 0 {
        Seq::empty()
    } else {
        let r = titled(s.drop_last(), q);
        if contains_text(lower_of(s.last().title), lower_of(q)) {
            r.push(s.last())
        } else {
            r
        }
    }
}

impl View for Database {
    type V = Seq<BookView>;

    open spec fn view(&self) -> Seq<BookView> {
        views(self.books@)
    }
}

proof fn lemma_unique_views(s: Seq<Book>)
    ensures
        keys_unique(s) <==> ids_unique(views(s)),
{
    if keys_unique(s) {
        assert forall|i: int, j: int| 0 <= i < j < views(s).len() implies views(s)[i].id != views(
            s,
        )[j].id by {
            assert(s[i].id != s[j].id);
        }
    }
    if ids_unique(views(s)) {
        assert forall|i: int, j: int| 0 <= i < j < s.len() implies s[i].id != s[j].id by {
            assert(views(s)[i].id != views(s)[j].id);
        }
    }
}

/// Decoding the bytes of a database gives back the same records, with the
/// same ids and field values, in the same order.
pub proof fn lemma_database_round_trip(d: Database)
    requires
        d.wf(),
        books_encodable(d@),
    ensures
        decode_books(encode_books(d@)) == Some(d@),
{
    lemma_unique_views(d.books@);
    lemma_round_trip(d@);
}

impl Database {
    pub open spec fn wf(&self) -> bool {
        self.books.wf()
    }

    /// A database with no records.
    pub fn new() -> (d: Database)
        ensures
            d.wf(),
            d.books@ == Seq::<Book>::empty(),
            d@ == Seq::<BookView>::empty(),
    {
        let d = Database { books: Table::new() };
        assert(d@ =~= Seq::<BookView>::empty());
        d
    }

    /// A copy of the book with id `id`.
    pub fn get_book(&self, id: usize) -> (r: Option<Book>)
        requires
            self.wf(),
        ensures
            match r {
                Some(b) => exists|i: int|
                    0 <= i < self.books@.len() && self.books@[i] == b && b.id == id,
                None => !has_key(self.books@, id),
            },
    {
        match self.books.get(id) {
            Some(b) => Some(b.duplicate()),
            None => None,
        }
    }

    /// Copies of the books whose title holds `query`, ignoring case, in
    /// table order.
    pub fn search_book(&self, query: &str) -> (r: Vec<Book>)
        ensures
            views(r@) == titled(self@, query@),
    {
        let q = lowercase(query);
        let rows = self.books.values();
        let mut out: Vec<Book> = Vec::new();
        let mut i: usize = 0;
        while i < rows.len()
            invariant
                rows@ == self.books@,
                q@ == lower_of(query@),
                i <= rows@.len(),
                views(out@) == titled(views(rows@).take(i as int), query@),
            decreases rows@.len() - i,
        {
            let t = lowercase(rows[i].title.as_str());
            let hit = title_matches_folded(q.as_str(), t.as_str());
            let ghost before = out@;
            assert(views(rows@).take(i + 1).drop_last() =~= views(rows@).take(i as int));
            if hit {
                out.push(rows[i].duplicate());
                assert(views(out@) =~= views(before).push(rows@[i as int]@));
            }
            i = i + 1;
        }
        assert(views(rows@).take(i as int) =~= self@);
        out
    }

    /// Adds `book` unless its id is taken.
    pub fn add_book(&mut self, book: Book) -> (r: Result<(), TableError>)
        requires
            old(self).wf(),
        ensures
            final(self).wf(),
            has_key(old(self).books@, book.id) ==> r == Err::<(), TableError>(
                TableError::KeyConflict,
            ) && final(self).books@ == old(self).books@,
            !has_key(old(self).books@, book.id) ==> r is Ok && final(self).books@ == old(
                self,
            ).books@.push(book),
    {
        self.books.insert(book)
    }

    /// Stores `book`, in place of the book with its id if there is one,
    /// which is returned.
    pub fn upsert_book(&mut self, book: Book) -> (r: Option<Book>)
        requires
            old(self).wf(),
        ensures
            final(self).wf(),
            match r {
                Some(prev) => exists|i: int|
                    0 <= i < old(self).books@.len() && old(self).books@[i] == prev && prev.id
                        == book.id && final(self).books@ == old(self).books@.update(i, book),
                None => !has_key(old(self).books@, book.id) && final(self).books@ == old(
                    self,
                ).books@.push(book),
            },
    {
        self.books.upsert(book)
    }

    /// Puts `book` in place of the book with id `id` and returns that one;
    /// `book` may carry another id only if it is free.
    pub fn edit_book(&mut self, id: usize, book: Book) -> (r: Result<Book, TableError>)
        requires
            old(self).wf(),
        ensures
            final(self).wf(),
            !has_key(old(self).books@, id) ==> r == Err::<Book, TableError>(TableError::NotFound),
            has_key(old(self).books@, id) && book.id != id && has_key(old(self).books@, book.id)
                ==> r == Err::<Book, TableError>(TableError::KeyConflict),
            has_key(old(self).books@, id) && (book.id == id || !has_key(old(self).books@, book.id))
                ==> r is Ok,
            match r {
                Ok(prev) => exists|i: int|
                    0 <= i < old(self).books@.len() && old(self).books@[i] == prev && prev.id == id
                        && final(self).books@ == old(self).books@.update(i, book),
                Err(_) => final(self).books@ == old(self).books@,
            },
    {
        self.books.replace(id, book)
    }

    /// Takes out and returns the book with id `id`.
    pub fn delete_book(&mut self, id: usize) -> (r: Result<Book, TableError>)
        requires
            old(self).wf(),
        ensures
            final(self).wf(),
            !has_key(old(self).books@, id) ==> r == Err::<Book, TableError>(TableError::NotFound),
            has_key(old(self).books@, id) ==> r is Ok,
            match r {
                Ok(prev) => exists|i: int|
                    0 <= i < old(self).books@.len() && old(self).books@[i] == prev && prev.id == id
                        && final(self).books@ == old(self).books@.remove(i),
                Err(_) => final(self).books@ == old(self).books@,
            },
    {
        self.books.remove(id)
    }

    /// The bytes that stand for this database.
    pub fn to_bytes(&self) -> (r: Vec<u8>)
        ensures
            r@ == encode_books(self@),
            books_encodable(self@),
    {
        let rows = self.books.values();
        let mut out: Vec<u8> = Vec::new();
        out.push(0x42u8);
        out.push(0x4bu8);
        out.push(0x44u8);
        out.push(0x42u8);
        push_u64(&mut out, rows.len() as u64);
        let ghost head = out@;
        assert(head =~= tag() + enc_u64(self@.len() as u64));
        let mut i: usize = 0;
        while i < rows.len()
            invariant
                rows@ == self.books@,
                i <= rows@.len(),
                out@ == head + enc_books(views(rows@).take(i as int)),
                forall|j: int| 0 <= j < i ==> book_encodable(#[trigger] views(rows@)[j]),
            decreases rows@.len() - i,
        {
            push_book(&mut out, &rows[i]);
            assert(views(rows@).take(i + 1).drop_last() =~= views(rows@).take(i as int));
            i = i + 1;
        }
        assert(views(rows@).take(i as int) =~= self@);
        out
    }

    /// The database that `b` stands for: `Ok` exactly when `b` is a whole,
    /// well-formed encoding with distinct ids.
    pub fn from_bytes(b: &[u8]) -> (r: Result<Database, DecodeError>)
        ensures
            match r {
                Ok(d) => d.wf() && decode_books(b@) == Some(d@),
                Err(_) => decode_books(b@) is None,
            },
    {
        let bl = b.len();
        if bl < 12 || b[0] != 0x42u8 || b[1] != 0x4bu8 || b[2] != 0x44u8 || b[3] != 0x42u8 {
            proof {
                if bl >= 12 {
                    assert(b@.subrange(0, 4)[0] == b@[0]);
                    assert(b@.subrange(0, 4)[1] == b@[1]);
                    assert(b@.subrange(0, 4)[2] == b@[2]);
                    assert(b@.subrange(0, 4)[3] == b@[3]);
                }
            }
            return Err(DecodeError);
        }
        assert(b@.subrange(0, 4) =~= tag());
        let n = match read_u64_at(b, 4) {
            Some(n) => n,
            None => return Err(DecodeError),
        };
        let mut table: Table<Book> = Table::new();
        let mut pos: usize = 12;
        let mut k: u64 = 0;
        while k < n
            invariant
                bl == b@.len(),
                bl >= 12,
                n == read_u64(b@, 4)->Some_0,
                k <= n,
                table.wf(),
                read_books(b@, 12, k as nat) == Some((views(table@), pos as int)),
            decreases n - k,
        {
            let (x, next) = match read_book_at(b, pos) {
                Some(r) => r,
                None => {
                    proof {
                        lemma_read_books_none(b@, 12, (k + 1) as nat, n as nat);
                    }
                    return Err(DecodeError);
                },
            };
            let ghost xv = x@;
            let ghost seen = table@;
            assert(read_books(b@, 12, (k + 1) as nat) == Some((views(seen).push(xv), next as int)));
            match table.insert(x) {
                Ok(()) => {
                    assert(views(table@) =~= views(seen).push(xv));
                },
                Err(_) => {
                    proof {
                        let i = choose|i: int| 0 <= i < seen.len() && seen[i].id == xv.id;
                        lemma_read_books_len(b@, 12, (k + 1) as nat);
                        assert(views(seen).push(xv)[i] == seen[i]@);
                        lemma_repeated_id(b@, k as nat, i);
                    }
                    return Err(DecodeError);
                },
            }
            pos = next;
            k = k + 1;
        }
        if pos != bl {
            return Err(DecodeError);
        }
        proof {
            lemma_unique_views(table@);
        }
        Ok(Database { books: table })
    }
}

} // verus!
