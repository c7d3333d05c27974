//! The byte encoding of a database: a four-byte tag, the record count, and
//! each record as its id, title, author and price. Integers are eight bytes,
//! little-endian; a text is its UTF-8 byte length followed by those bytes.
use vstd::prelude::*;
use vstd::bytes::{
    lemma_auto_spec_u64_to_from_le_bytes, spec_u64_from_le_bytes, spec_u64_to_le_bytes,
    u64_from_le_bytes, u64_to_le_bytes,
};
use vstd::slice::{slice_subrange, slice_to_vec};
use vstd::utf8::{
    decode_utf8, encode_utf8, encode_utf8_decode_utf8, encode_utf8_valid_utf8, valid_utf8,
};
use crate::book::{Book, BookView};

verus! {

pub open spec fn tag() -> Seq<u8> {
    seq![0x42u8, 0x4bu8, 0x44u8, 0x42u8]
}

pub open spec fn enc_u64(x: u64) -> Seq<u8> {
    spec_u64_to_le_bytes(x)
}

pub open spec fn enc_text(t: Seq<char>) -> Seq<u8> {
    enc_u64(encode_utf8(t).len() as u64) + encode_utf8(t)
}

pub open spec fn enc_book(b: BookView) -> Seq<u8> {
    enc_u64(b.id as u64) + enc_text(b.title) + enc_text(b.author) + enc_u64(b.price_bits)
}

pub open spec fn enc_books(s: Seq<BookView>) -> Seq<u8>
    decreases s.len(),
{
    if s.len() == 0 {
        Seq::empty()
    } else {
        enc_books(s.drop_last()) + enc_book(s.last())
    }
}

/// The bytes that stand for the records `s`, in order.
pub open spec fn encode_books(s: Seq<BookView>) -> Seq<u8> {
    tag() + enc_u64(s.len() as u64) + enc_books(s)
}

/// True when the book's texts have lengths that the encoding can hold.
pub open spec fn book_encodable(b: BookView) -> bool {
    encode_utf8(b.title).len() <= u64::MAX && encode_utf8(b.author).len() <= u64::MAX
}

pub open spec fn books_encodable(s: Seq<BookView>) -> bool {
    s.len() <= u64::MAX && forall|i: int| 0 <= i < s.len() ==> book_encodable(#[trigger] s[i])
}

/// True when no two records of `s` share an id.
pub open spec fn ids_unique(s: Seq<BookView>) -> bool {
    forall|i: int, j: int| 0 <= i < j < s.len() ==> s[i].id != s[j].id
}

pub open spec fn read_u64(b: Seq<u8>, p: int) -> Option<u64> {
    if 0 <= p && p + 8 <= b.len() {
        Some(spec_u64_from_le_bytes(b.subrange(p, p + 8)))
    } else {
        None
    }
}

pub open spec fn read_text(b: Seq<u8>, p: int) -> Option<(Seq<char>, int)> {
    match read_u64(b, p) {
        Some(n) => {
            let q = p + 8;
            if q + n <= b.len() && valid_utf8(b.subrange(q, q + n)) {
                Some((decode_utf8(b.subrange(q, q + n)), q + n))
            } else {
                None
            }
        },
        None => None,
    }
}

pub open spec fn read_book(b: Seq<u8>, p: int) -> Option<(BookView, int)> {
    match read_u64(b, p) {
        Some(id) => if id <= usize::MAX {
            match read_text(b, p + 8) {
                Some((title, q)) => match read_text(b, q) {
                    Some((author, r)) => match read_u64(b, r) {
                        Some(price_bits) => Some(
                            (BookView { id: id as usize, title, author, price_bits }, r + 8),
                        ),
                        None => None,
                    },
                    None => None,
                },
                None => None,
            }
        } else {
            None
        },
        None => None,
    }
}

pub open spec fn read_books(b: Seq<u8>, p: int, n: nat) -> Option<(Seq<BookView>, int)>
    decreases n,
{
    if n == 0 {
        Some((Seq::empty(), p))
    } else {
        match read_books(b, p, (n - 1) as nat) {
            Some((s, q)) => match read_book(b, q) {
                Some((x, r)) => Some((s.push(x), r)),
                None => None,
            },
            None => None,
        }
    }
}

/// The records that the bytes `b` stand for, if they are a whole, well-formed
/// encoding with distinct ids.
pub open spec fn decode_books(b: Seq<u8>) -> Option<Seq<BookView>> {
    if b.len() >= 12 && b.subrange(0, 4) == tag() {
        match read_books(b, 12, read_u64(b, 4)->Some_0 as nat) {
            Some((s, e)) => if e == b.len() && ids_unique(s) {
                Some(s)
            } else {
                None
            },
            None => None,
        }
    } else {
        None
    }
}

proof fn lemma_split(b: Seq<u8>, p: int, x: Seq<u8>, y: Seq<u8>)
    requires
        0 <= p,
        p + x.len() + y.len() <= b.len(),
        b.subrange(p, p + x.len() + y.len()) == x + y,
    ensures
        b.subrange(p, p + x.len()) == x,
        b.subrange(p + x.len(), p + x.len() + y.len()) == y,
{
    assert(b.subrange(p, p + x.len()) =~= (x + y).subrange(0, x.len() as int));
    assert(b.subrange(p + x.len(), p + x.len() + y.len()) =~= (x + y).subrange(
        x.len() as int,
        (x.len() + y.len()) as int,
    ));
    assert((x + y).subrange(0, x.len() as int) =~= x);
    assert((x + y).subrange(x.len() as int, (x.len() + y.len()) as int) =~= y);
}

proof fn lemma_read_u64(b: Seq<u8>, p: int, x: u64)
    requires
        0 <= p,
        p + 8 <= b.len(),
        b.subrange(p, p + 8) == enc_u64(x),
    ensures
        read_u64(b, p) == Some(x),
{
    lemma_auto_spec_u64_to_from_le_bytes();
}

proof fn lemma_read_text(b: Seq<u8>, p: int, t: Seq<char>)
    requires
        0 <= p,
        encode_utf8(t).len() <= u64::MAX,
        p + enc_text(t).len() <= b.len(),
        b.subrange(p, p + enc_text(t).len()) == enc_text(t),
    ensures
        read_text(b, p) == Some((t, p + enc_text(t).len())),
{
    lemma_auto_spec_u64_to_from_le_bytes();
    let u = encode_utf8(t);
    lemma_split(b, p, enc_u64(u.len() as u64), u);
    lemma_read_u64(b, p, u.len() as u64);
    encode_utf8_valid_utf8(t);
    encode_utf8_decode_utf8(t);
}

proof fn lemma_read_book(b: Seq<u8>, p: int, x: BookView)
    requires
        0 <= p,
        book_encodable(x),
        p + enc_book(x).len() <= b.len(),
        b.subrange(p, p + enc_book(x).len()) == enc_book(x),
    ensures
        read_book(b, p) == Some((x, p + enc_book(x).len())),
{
    lemma_auto_spec_u64_to_from_le_bytes();
    let a = enc_u64(x.id as u64);
    let t = enc_text(x.title);
    let u = enc_text(x.author);
    let c = enc_u64(x.price_bits);
    assert(enc_book(x) == ((a + t) + u) + c);
    lemma_split(b, p, (a + t) + u, c);
    lemma_split(b, p, a + t, u);
    lemma_split(b, p, a, t);
    lemma_read_u64(b, p, x.id as u64);
    lemma_read_text(b, p + 8, x.title);
    lemma_read_text(b, p + 8 + t.len(), x.author);
    lemma_read_u64(b, p + 8 + t.len() + u.len(), x.price_bits);
}

proof fn lemma_read_books(b: Seq<u8>, p: int, s: Seq<BookView>)
    requires
        0 <= p,
        books_encodable(s),
        p + enc_books(s).len() <= b.len(),
        b.subrange(p, p + enc_books(s).len()) == enc_books(s),
    ensures
        read_books(b, p, s.len()) == Some((s, p + enc_books(s).len())),
    decreases s.len(),
{
    if s.len() == 0 {
        assert(s =~= Seq::<BookView>::empty());
    } else {
        let r = s.drop_last();
        let x = s.last();
        lemma_split(b, p, enc_books(r), enc_book(x));
        assert(books_encodable(r)) by {
            assert forall|i: int| 0 <= i < r.len() implies book_encodable(#[trigger] r[i]) by {
                assert(r[i] == s[i]);
            }
        }
        lemma_read_books(b, p, r);
        assert(book_encodable(s[s.len() - 1]));
        lemma_read_book(b, p + enc_books(r).len(), x);
        assert(r.push(x) =~= s);
    }
}

/// Decoding the encoding of records with distinct ids gives those records back.
pub proof fn lemma_round_trip(s: Seq<BookView>)
    requires
        books_encodable(s),
        ids_unique(s),
    ensures
        decode_books(encode_books(s)) == Some(s),
{
    lemma_auto_spec_u64_to_from_le_bytes();
    let b = encode_books(s);
    let h = tag() + enc_u64(s.len() as u64);
    assert(b == h + enc_books(s));
    assert(b.subrange(0, b.len() as int) =~= b);
    lemma_split(b, 0, h, enc_books(s));
    lemma_split(b, 0, tag(), enc_u64(s.len() as u64));
    lemma_read_u64(b, 4, s.len() as u64);
    lemma_read_books(b, 12, s);
}

pub(crate) proof fn lemma_read_books_none(b: Seq<u8>, p: int, k: nat, n: nat)
    requires
        k <= n,
        read_books(b, p, k) is None,
    ensures
        read_books(b, p, n) is None,
    decreases n,
{
    if k < n {
        lemma_read_books_none(b, p, k, (n - 1) as nat);
    }
}

pub(crate) proof fn lemma_read_books_len(b: Seq<u8>, p: int, n: nat)
    requires
        read_books(b, p, n) is Some,
    ensures
        read_books(b, p, n)->Some_0.0.len() == n,
    decreases n,
{
    if n > 0 {
        lemma_read_books_len(b, p, (n - 1) as nat);
    }
}

proof fn lemma_read_books_prefix(b: Seq<u8>, p: int, k: nat, n: nat)
    requires
        k <= n,
        read_books(b, p, n) is Some,
    ensures
        read_books(b, p, k) is Some,
        read_books(b, p, k)->Some_0.0 == read_books(b, p, n)->Some_0.0.take(k as int),
    decreases n,
{
    let s = read_books(b, p, n)->Some_0.0;
    lemma_read_books_len(b, p, n);
    if k == n {
        assert(s.take(k as int) =~= s);
    } else {
        lemma_read_books_prefix(b, p, k, (n - 1) as nat);
        let t = read_books(b, p, (n - 1) as nat)->Some_0.0;
        lemma_read_books_len(b, p, (n - 1) as nat);
        assert(s.take(k as int) =~= t.take(k as int));
    }
}

/// Where records read so far already repeat an id, the whole input decodes to nothing.
pub(crate) proof fn lemma_repeated_id(b: Seq<u8>, k: nat, i: int)
    requires
        b.len() >= 12,
        k < read_u64(b, 4)->Some_0,
        read_books(b, 12, k + 1) is Some,
        0 <= i < k,
        read_books(b, 12, k + 1)->Some_0.0[i].id == read_books(b, 12, k + 1)->Some_0.0[k as int].id,
    ensures
        decode_books(b) is None,
{
    let n = read_u64(b, 4)->Some_0 as nat;
    if read_books(b, 12, n) is Some {
        lemma_read_books_prefix(b, 12, k + 1, n);
        lemma_read_books_len(b, 12, n);
        let s = read_books(b, 12, n)->Some_0.0;
        assert(s[i] == s.take((k + 1) as int)[i]);
        assert(s[k as int] == s.take((k + 1) as int)[k as int]);
        assert(!ids_unique(s));
    }
}

/// Relies on `String::from_utf8`: it accepts exactly the valid UTF-8 byte
/// sequences and then holds the characters that they encode.
#[verifier::external_body]
fn utf8_text(bytes: Vec<u8>) -> (r: Option<String>)
    ensures
        r is Some <==> valid_utf8(bytes@),
        r matches Some(t) ==> t@ == decode_utf8(bytes@),
{
    String::from_utf8(bytes).ok()
}

pub(crate) fn push_u64(out: &mut Vec<u8>, x: u64)
    ensures
        final(out)@ == old(out)@ + enc_u64(x),
{
    let mut v = u64_to_le_bytes(x);
    out.append(&mut v);
}

fn push_text(out: &mut Vec<u8>, t: &String)
    ensures
        final(out)@ == old(out)@ + enc_text(t@),
        encode_utf8(t@).len() <= u64::MAX,
{
    let bytes = t.as_str().as_bytes();
    let n = bytes.len();
    push_u64(out, n as u64);
    let ghost start = out@;
    let mut i: usize = 0;
    while i < n
        invariant
            bytes@ == encode_utf8(t@),
            n == bytes@.len(),
            i <= n,
            out@ == start + bytes@.take(i as int),
        decreases n - i,
    {
        out.push(bytes[i]);
        assert(bytes@.take(i + 1) =~= bytes@.take(i as int).push(bytes@[i as int]));
        i = i + 1;
    }
    assert(bytes@.take(n as int) =~= bytes@);
    assert(out@ =~= old(out)@ + enc_text(t@));
}

/// Appends the encoding of `b`.
pub fn push_book(out: &mut Vec<u8>, b: &Book)
    ensures
        final(out)@ == old(out)@ + enc_book(b@),
        book_encodable(b@),
{
    push_u64(out, b.id as u64);
    push_text(out, &b.title);
    push_text(out, &b.author);
    push_u64(out, b.price_bits);
    assert(final(out)@ =~= old(out)@ + enc_book(b@));
}

pub fn read_u64_at(b: &[u8], p: usize) -> (r: Option<u64>)
    ensures
        r == read_u64(b@, p as int),
{
    if p <= b.len() && b.len() - p >= 8 {
        Some(u64_from_le_bytes(slice_subrange(b, p, p + 8)))
    } else {
        None
    }
}

fn read_text_at(b: &[u8], p: usize) -> (r: Option<(String, usize)>)
    ensures
        match r {
            Some((t, q)) => read_text(b@, p as int) == Some((t@, q as int)),
            None => read_text(b@, p as int) is None,
        },
{
    let bl = b.len();
    match read_u64_at(b, p) {
        None => None,
        Some(n) => {
            let q = p + 8;
            if n > (b.len() - q) as u64 {
                return None;
            }
            let e = q + n as usize;
            let bytes = slice_to_vec(slice_subrange(b, q, e));
            match utf8_text(bytes) {
                Some(t) => Some((t, e)),
                None => None,
            }
        },
    }
}

/// Reads the record that starts at `p`, and where it ends.
pub fn read_book_at(b: &[u8], p: usize) -> (r: Option<(Book, usize)>)
    ensures
        match r {
            Some((x, q)) => read_book(b@, p as int) == Some((x@, q as int)),
            None => read_book(b@, p as int) is None,
        },
{
    let bl = b.len();
    let id = match read_u64_at(b, p) {
        Some(id) => id,
        None => return None,
    };
    if id > usize::MAX as u64 {
        return None;
    }
    let (title, q) = match read_text_at(b, p + 8) {
        Some(x) => x,
        None => return None,
    };
    let (author, r) = match read_text_at(b, q) {
        Some(x) => x,
        None => return None,
    };
    let price_bits = match read_u64_at(b, r) {
        Some(x) => x,
        None => return None,
    };
    Some((Book { id: id as usize, title, author, price_bits }, r + 8))
}

} // verus!
