use vstd::prelude::*;
use crate::table::Record;
use vstd::utf8::encode_utf8;

verus! {

/// What a book is, as plain values.
pub struct BookView {
    pub id: usize,
    pub title: Seq<char>,
    pub author: Seq<char>,
    pub price_bits: u64,
}

/// A book record; `id` is its primary key.
pub struct Book {
    pub id: usize,
    pub title: String,
    pub author: String,
    /// The price, as the bit pattern of an IEEE-754 double.
    pub price_bits: u64,
}

impl View for Book {
    type V = BookView;

    open spec fn view(&self) -> BookView {
        BookView { id: self.id, title: self.title@, author: self.author@, price_bits: self.price_bits }
    }
}

impl Record for Book {
    open spec fn key(&self) -> usize {
        self.id
    }

    fn primary_key(&self) -> (k: usize) {
        self.id
    }
}

impl Book {
    pub fn new(id: usize, title: &str, author: &str, price_bits: u64) -> (b: Book)
        ensures
            b@ == (BookView { id, title: title@, author: author@, price_bits }),
    {
        Book { id, title: title.to_owned(), author: author.to_owned(), price_bits }
    }

    /// A copy with the same field values.
    pub fn duplicate(&self) -> (b: Book)
        ensures
            b == *self,
            b@ == self@,
    {
        Book {
            id: self.id,
            title: self.title.clone(),
            author: self.author.clone(),
            price_bits: self.price_bits,
        }
    }
}

/// The name of what `str::to_lowercase` returns for the characters `s`.
pub uninterp spec fn lower_of(s: Seq<char>) -> Seq<char>;

/// Relies on `str::to_lowercase`: the lowercase mapping of each character,
/// a function of the characters alone; the empty string stays empty.
#[verifier::external_body]
pub(crate) fn lowercase(s: &str) -> (r: String)
    ensures
        r@ == lower_of(s@),
        s@.len() == 0 ==> r@.len() == 0,
{
    s.to_lowercase()
}

/// True when the UTF-8 bytes of `needle` occur contiguously in those of `hay`.
pub open spec fn contains_text(hay: Seq<char>, needle: Seq<char>) -> bool {
    let h = encode_utf8(hay);
    let n = encode_utf8(needle);
    exists|i: int| 0 <= i && i + n.len() <= h.len() && #[trigger] h.subrange(i, i + n.len()) == n
}

/// Whether `needle` occurs in `hay`, compared as UTF-8 text.
pub fn text_contains(hay: &str, needle: &str) -> (r: bool)
    ensures
        r == contains_text(hay@, needle@),
{
    let h = hay.as_bytes();
    let n = needle.as_bytes();
    let hl = h.len();
    let nl = n.len();
    if n.len() > h.len() {
        return false;
    }
    let last = h.len() - n.len();
    let mut i: usize = 0;
    while i <= last
        invariant
            h@ == encode_utf8(hay@),
            n@ == encode_utf8(needle@),
            h@.len() == hl,
            n@.len() == nl,
            last == h@.len() - n@.len(),
            i <= last + 1,
            forall|k: int| 0 <= k < i ==> #[trigger] h@.subrange(k, k + n@.len()) != n@,
        decreases last + 1 - i,
    {
        let mut j: usize = 0;
        let mut agree = true;
        while agree && j < nl
            invariant
                h@ == encode_utf8(hay@),
                n@ == encode_utf8(needle@),
                h@.len() == hl,
                n@.len() == nl,
                last == hl - nl,
                i <= last,
                j <= nl,
                forall|m: int| 0 <= m < j ==> h@[i + m] == n@[m],
                !agree ==> j < nl && h@[i + j] != n@[j as int],
            decreases nl - j + (if agree { 1int } else { 0int }),
        {
            if h[i + j] != n[j] {
                agree = false;
            } else {
                j = j + 1;
            }
        }
        if j == n.len() {
            assert(h@.subrange(i as int, i + n@.len()) =~= n@);
            return true;
        }
        assert(h@.subrange(i as int, i + n@.len())[j as int] != n@[j as int]);
        assert(h@.subrange(i as int, i + n@.len()) != n@);
        if i == last {
            assert forall|k: int| 0 <= k && k + n@.len() <= h@.len() implies #[trigger] h@.subrange(
                k,
                k + n@.len(),
            ) != n@ by {
                if k < i {
                } else {
                    assert(k == i);
                }
            }
            return false;
        }
        i = i + 1;
    }
    false
}

/// Whether the query, folded to lowercase, occurs in the folded title.
pub fn title_matches_folded(folded_query: &str, folded_title: &str) -> (r: bool)
    ensures
        r == contains_text(folded_title@, folded_query@),
{
    text_contains(folded_title, folded_query)
}

/// Whether `query` occurs in the book's title, ignoring case.
pub fn title_matches(book: &Book, query: &str) -> (r: bool)
    ensures
        r == contains_text(lower_of(book.title@), lower_of(query@)),
{
    let q = lowercase(query);
    let t = lowercase(book.title.as_str());
    title_matches_folded(q.as_str(), t.as_str())
}

} // verus!
