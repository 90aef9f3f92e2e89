//! The memory-mappable embedding file.
//!
//! Layout:
//! - header (24 bytes): magic `EMBD`, version (u32 LE), number of words
//!   (u64 LE), dimension (u64 LE);
//! - index: per word, its byte length (u64 LE), its UTF-8 bytes, the offset
//!   of its vector in the data section (u64 LE) and the vector's byte length
//!   (u64 LE);
//! - data: the vectors' bytes, one after another.
use vstd::bytes::{
    lemma_auto_spec_u32_to_from_le_bytes, lemma_auto_spec_u64_to_from_le_bytes,
    spec_u32_from_le_bytes, spec_u32_to_le_bytes, spec_u64_from_le_bytes, spec_u64_to_le_bytes,
    u32_from_le_bytes, u32_to_le_bytes, u64_from_le_bytes, u64_to_le_bytes,
};
use vstd::hash_map::StringHashMap;
use vstd::prelude::*;
use vstd::utf8::{decode_utf8, encode_utf8, encode_utf8_decode_utf8, encode_utf8_valid_utf8, valid_utf8};

use crate::text::first_occurrences;

verus! {

// ---------------------------------------------------------------------------
// The layout
// ---------------------------------------------------------------------------

/// The bytes that open the file: `EMBD`.
pub open spec fn magic() -> Seq<u8> {
    seq![69u8, 77u8, 66u8, 68u8]
}

/// The header: magic, version 1, number of words, dimension.
pub open spec fn header_bytes(n: u64, dim: u64) -> Seq<u8> {
    magic() + spec_u32_to_le_bytes(1) + spec_u64_to_le_bytes(n) + spec_u64_to_le_bytes(dim)
}

/// One index entry.
pub open spec fn entry_bytes(word: Seq<u8>, offset: u64, len: u64) -> Seq<u8> {
    spec_u64_to_le_bytes(word.len() as u64) + word + spec_u64_to_le_bytes(offset)
        + spec_u64_to_le_bytes(len)
}

/// The index entries of the words, their vectors placed one after another
/// from data offset `start`.
pub open spec fn index_bytes(words: Seq<Seq<char>>, rows: Seq<Seq<u8>>, start: nat) -> Seq<u8>
    decreases words.len(),
{
    if words.len() == 0 || rows.len() == 0 {
        seq![]
    } else {
        entry_bytes(encode_utf8(words[0]), start as u64, rows[0].len() as u64) + index_bytes(
            words.drop_first(),
            rows.drop_first(),
            start + rows[0].len(),
        )
    }
}

/// The rows' bytes one after another.
pub open spec fn data_bytes(rows: Seq<Seq<u8>>) -> Seq<u8>
    decreases rows.len(),
{
    if rows.len() == 0 {
        seq![]
    } else {
        rows[0] + data_bytes(rows.drop_first())
    }
}

/// The number of values per vector: a quarter of a row's bytes, zero for no rows.
pub open spec fn row_dim(rows: Seq<Seq<u8>>) -> nat {
    if rows.len() == 0 {
        0
    } else {
        rows[0].len() / 4
    }
}

/// The whole file for the words and their vectors' bytes.
pub open spec fn file_bytes(words: Seq<Seq<char>>, rows: Seq<Seq<u8>>) -> Seq<u8> {
    header_bytes(words.len() as u64, row_dim(rows) as u64) + index_bytes(words, rows, 0)
        + data_bytes(rows)
}

/// All rows have the byte length of the first.
pub open spec fn same_lengths(rows: Seq<Seq<u8>>) -> bool {
    forall|i: int| 0 <= i < rows.len() ==> #[trigger] rows[i].len() == rows[0].len()
}

/// Why a file cannot be written.
#[derive(Debug, Clone, Copy, PartialEq, Eq, Structural)]
pub enum MmapSaveError {
    /// Not as many vectors as words.
    LengthMismatch,
    /// The vectors do not all have the same dimension.
    InconsistentDimensions,
}

// ---------------------------------------------------------------------------
// Writing
// ---------------------------------------------------------------------------

/// Appends bytes.
fn append(out: &mut Vec<u8>, bytes: &[u8])
    ensures
        final(out)@ == old(out)@ + bytes@,
{
    let ghost start = out@;
    let mut i: usize = 0;
    while i < bytes.len()
        invariant
            i <= bytes.len(),
            out@ =~= start + bytes@.take(i as int),
        decreases bytes.len() - i,
    {
        out.push(bytes[i]);
        i = i + 1;
    }
    assert(bytes@.take(i as int) =~= bytes@);
}

/// The index and data sections stay in step: splitting off the entries
/// already written leaves the entries of the remaining words.
proof fn lemma_index_step(words: Seq<Seq<char>>, rows: Seq<Seq<u8>>, i: int, start: nat)
    requires
        0 <= i < words.len(),
        words.len() == rows.len(),
    ensures
        index_bytes(words.skip(i), rows.skip(i), start) == entry_bytes(
            encode_utf8(words[i]),
            start as u64,
            rows[i].len() as u64,
        ) + index_bytes(words.skip(i + 1), rows.skip(i + 1), start + rows[i].len()),
        data_bytes(rows.skip(i)) == rows[i] + data_bytes(rows.skip(i + 1)),
{
    assert(words.skip(i).drop_first() =~= words.skip(i + 1));
    assert(rows.skip(i).drop_first() =~= rows.skip(i + 1));
    assert(words.skip(i)[0] == words[i]);
    assert(rows.skip(i)[0] == rows[i]);
}

/// Builds the memory-mappable file for the words and their vectors, given
/// as the bytes of their values (four bytes per value).
pub fn mmap_file_bytes(words: &[String], rows: &[Vec<u8>]) -> (r: Result<Vec<u8>, MmapSaveError>)
    requires
        forall|i: int| 0 <= i < rows@.len() ==> #[trigger] rows@[i]@.len() % 4 == 0,
    ensures
        words@.len() != rows@.len() ==> r == Err::<Vec<u8>, MmapSaveError>(
            MmapSaveError::LengthMismatch,
        ),
        words@.len() == rows@.len() && !same_lengths(rows.deep_view()) ==> r == Err::<
            Vec<u8>,
            MmapSaveError,
        >(MmapSaveError::InconsistentDimensions),
        words@.len() == rows@.len() && same_lengths(rows.deep_view()) ==> (r matches Ok(b) && b@
            == file_bytes(words.deep_view(), rows.deep_view())),
{
    let ghost wv = words.deep_view();
    let ghost rv = rows.deep_view();
    if words.len() != rows.len() {
        return Err(MmapSaveError::LengthMismatch);
    }
    let first_len: usize = if rows.len() == 0 {
        0
    } else {
        rows[0].len()
    };
    let mut k: usize = 0;
    while k < rows.len()
        invariant
            k <= rows@.len(),
            words@.len() == rows@.len(),
            rv == rows.deep_view(),
            rows@.len() > 0 ==> first_len == rv[0].len(),
            forall|m: int| 0 <= m < k ==> #[trigger] rv[m].len() == first_len,
        decreases rows.len() - k,
    {
        assert(rv[k as int] == rows@[k as int]@);
        if rows[k].len() != first_len {
            assert(rows@.len() > 0);
            assert(!same_lengths(rv)) by {
                assert(rv[k as int].len() != rv[0].len());
            }
            return Err(MmapSaveError::InconsistentDimensions);
        }
        k = k + 1;
    }
    assert(same_lengths(rv));
    let dim: u64 = (first_len / 4) as u64;
    assert(dim == row_dim(rv) as u64);
    let mut out: Vec<u8> = Vec::new();
    append(&mut out, &[69u8, 77u8, 66u8, 68u8]);
    assert(out@ =~= magic());
    let v = u32_to_le_bytes(1);
    append(&mut out, v.as_slice());
    let n = u64_to_le_bytes(words.len() as u64);
    append(&mut out, n.as_slice());
    let d = u64_to_le_bytes(dim);
    append(&mut out, d.as_slice());
    assert(out@ == header_bytes(wv.len() as u64, row_dim(rv) as u64));
    let ghost header = out@;
    let mut data: Vec<u8> = Vec::new();
    let mut i: usize = 0;
    assert(wv.skip(0) =~= wv);
    assert(rv.skip(0) =~= rv);
    while i < words.len()
        invariant
            i <= words@.len(),
            words@.len() == rows@.len(),
            wv == words.deep_view(),
            rv == rows.deep_view(),
            out@ + index_bytes(wv.skip(i as int), rv.skip(i as int), data@.len() as nat)
                == header + index_bytes(wv, rv, 0),
            data@ + data_bytes(rv.skip(i as int)) == data_bytes(rv),
        decreases words.len() - i,
    {
        proof {
            lemma_index_step(wv, rv, i as int, data@.len() as nat);
        }
        let ghost out0 = out@;
        let ghost data0 = data@;
        let wb = words[i].as_str().as_bytes();
        assert(wb@ == encode_utf8(wv[i as int]));
        let wl = u64_to_le_bytes(wb.len() as u64);
        append(&mut out, wl.as_slice());
        append(&mut out, wb);
        let off = u64_to_le_bytes(data.len() as u64);
        append(&mut out, off.as_slice());
        let len = u64_to_le_bytes(rows[i].len() as u64);
        append(&mut out, len.as_slice());
        assert(rv[i as int] == rows@[i as int]@);
        assert(out@ =~= out0 + entry_bytes(
            encode_utf8(wv[i as int]),
            data0.len() as u64,
            rv[i as int].len() as u64,
        ));
        append(&mut data, rows[i].as_slice());
        assert(data@.len() == data0.len() + rv[i as int].len());
        i = i + 1;
        assert(out@ + index_bytes(wv.skip(i as int), rv.skip(i as int), data@.len() as nat)
            =~= out0 + index_bytes(wv.skip(i - 1), rv.skip(i - 1), data0.len() as nat));
        assert(data@ + data_bytes(rv.skip(i as int)) =~= data0 + data_bytes(rv.skip(i - 1)));
    }
    assert(wv.skip(i as int) =~= Seq::<Seq<char>>::empty());
    assert(rv.skip(i as int) =~= Seq::<Seq<u8>>::empty());
    assert(out@ =~= header + index_bytes(wv, rv, 0));
    assert(data@ =~= data_bytes(rv));
    let ghost index_part = out@;
    append(&mut out, data.as_slice());
    Ok(out)
}

// ---------------------------------------------------------------------------
// Reading
// ---------------------------------------------------------------------------

/// Why a file cannot be read.
#[derive(Debug, Clone, Copy, PartialEq, Eq, Structural)]
pub enum MmapError {
    /// Shorter than the 24-byte header (checked first for 20 bytes, then,
    /// after magic and version, for the full header).
    TooSmall,
    /// The file does not start with `EMBD`.
    BadMagic,
    /// A version other than 1.
    UnsupportedVersion(u32),
    /// An entry's word length runs past the end.
    CorruptIndex,
    /// An entry's word runs past the end.
    CorruptEntry,
    /// An entry's data offset and length run past the end.
    CorruptDataOffset,
}

/// The little-endian u64 at a position.
pub open spec fn u64_at(b: Seq<u8>, at: int) -> u64 {
    spec_u64_from_le_bytes(b.subrange(at, at + 8))
}

/// An index entry as read: the word's bytes, its data offset and length.
pub type RawEntry = (Seq<u8>, u64, u64);

/// Reading `remaining` entries from `offset`: the entries and the offset
/// after them.
pub open spec fn read_entries(b: Seq<u8>, offset: nat, remaining: nat) -> Result<
    (Seq<RawEntry>, nat),
    MmapError,
>
    decreases remaining,
{
    if remaining == 0 {
        Ok((seq![], offset))
    } else if offset + 8 > b.len() {
        Err(MmapError::CorruptIndex)
    } else {
        let o1 = offset + 8;
        let wl = u64_at(b, offset as int);
        if o1 + wl > b.len() {
            Err(MmapError::CorruptEntry)
        } else {
            let o2 = (o1 + wl) as nat;
            if o2 + 16 > b.len() {
                Err(MmapError::CorruptDataOffset)
            } else {
                let e = (b.subrange(o1 as int, o2 as int), u64_at(b, o2 as int), u64_at(b, (o2 + 8) as int));
                match read_entries(b, o2 + 16, (remaining - 1) as nat) {
                    Ok(rest) => Ok((seq![e] + rest.0, rest.1)),
                    Err(err) => Err(err),
                }
            }
        }
    }
}

/// The entries already read, in front of what reading the rest gives.
pub open spec fn prepend(done: Seq<RawEntry>, r: Result<(Seq<RawEntry>, nat), MmapError>) -> Result<
    (Seq<RawEntry>, nat),
    MmapError,
> {
    match r {
        Ok(x) => Ok((done + x.0, x.1)),
        Err(e) => Err(e),
    }
}

/// The header is accepted: magic and version are right.
pub open spec fn header_ok(b: Seq<u8>) -> bool {
    b.len() >= 20 && b.take(4) == magic() && spec_u32_from_le_bytes(b.subrange(4, 8)) == 1
}

/// What reading a file gives: the entries, the dimension and where the data
/// section starts; or why it cannot be read.
pub open spec fn parse_file(b: Seq<u8>) -> Result<(Seq<RawEntry>, u64, nat), MmapError> {
    if b.len() < 20 {
        Err(MmapError::TooSmall)
    } else if b.take(4) != magic() {
        Err(MmapError::BadMagic)
    } else if spec_u32_from_le_bytes(b.subrange(4, 8)) != 1 {
        Err(MmapError::UnsupportedVersion(spec_u32_from_le_bytes(b.subrange(4, 8))))
    } else if b.len() < 24 {
        Err(MmapError::TooSmall)
    } else {
        match read_entries(b, 24, u64_at(b, 8) as nat) {
            Ok(r) => Ok((r.0, u64_at(b, 16), r.1)),
            Err(e) => Err(e),
        }
    }
}

/// `String::from_utf8_lossy` decodes bytes, each invalid sequence becoming
/// U+FFFD; its result as characters.
pub uninterp spec fn utf8_lossy(b: Seq<u8>) -> Seq<char>;

/// `String::from_utf8_lossy`: the result depends on the bytes alone, and
/// valid UTF-8 is decoded unchanged, as its documentation states.
#[verifier::external_body]
pub(crate) fn lossy_string(b: &[u8]) -> (r: String)
    ensures
        r@ == utf8_lossy(b@),
        valid_utf8(b@) ==> r@ == decode_utf8(b@),
{
    String::from_utf8_lossy(b).to_string()
}

/// The id map of an index: each word to the place of its vector, a later
/// entry for the same word replacing an earlier one.
pub open spec fn places_map(words: Seq<Seq<char>>, places: Seq<(u64, u64)>) -> Map<
    Seq<char>,
    (u64, u64),
>
    decreases words.len(),
{
    if words.len() == 0 || places.len() == 0 {
        Map::empty()
    } else {
        places_map(words.drop_last(), places.drop_last()).insert(words.last(), places.last())
    }
}

/// The index of a memory-mappable file.
pub struct MmapIndex {
    /// Each entry's word, decoded, in file order.
    pub words: Vec<String>,
    /// Each entry's data offset and byte length, in file order.
    pub places: Vec<(u64, u64)>,
    /// Word to data offset and byte length.
    pub vocab: StringHashMap<(u64, u64)>,
    /// The distinct words, in order of first appearance.
    pub distinct: Vec<String>,
    /// The dimension the header states.
    pub dim: u64,
    /// Where the data section starts.
    pub data_offset: usize,
}

/// The entries the index of the words and rows holds, vectors placed one
/// after another from data offset `start`.
pub open spec fn raw_entries(words: Seq<Seq<char>>, rows: Seq<Seq<u8>>, start: nat) -> Seq<
    RawEntry,
>
    decreases words.len(),
{
    if words.len() == 0 || rows.len() == 0 {
        seq![]
    } else {
        seq![(encode_utf8(words[0]), start as u64, rows[0].len() as u64)] + raw_entries(
            words.drop_first(),
            rows.drop_first(),
            start + rows[0].len(),
        )
    }
}

/// Eight little-endian bytes read back give the number written.
proof fn lemma_u64_read(p: Seq<u8>, x: u64, s: Seq<u8>)
    ensures
        u64_at(p + spec_u64_to_le_bytes(x) + s, p.len() as int) == x,
{
    lemma_auto_spec_u64_to_from_le_bytes();
    assert((p + spec_u64_to_le_bytes(x) + s).subrange(p.len() as int, p.len() + 8int)
        =~= spec_u64_to_le_bytes(x));
}

/// Reading an index that was written gives back its entries.
proof fn lemma_read_index(
    p: Seq<u8>,
    words: Seq<Seq<char>>,
    rows: Seq<Seq<u8>>,
    start: nat,
    s: Seq<u8>,
)
    requires
        words.len() == rows.len(),
        (p + index_bytes(words, rows, start) + s).len() <= usize::MAX,
        start + data_bytes(rows).len() <= u64::MAX,
    ensures
        read_entries(p + index_bytes(words, rows, start) + s, p.len(), words.len()) == Ok::<
            (Seq<RawEntry>, nat),
            MmapError,
        >((raw_entries(words, rows, start), p.len() + index_bytes(words, rows, start).len())),
    decreases words.len(),
{
    lemma_auto_spec_u64_to_from_le_bytes();
    if words.len() > 0 {
        let b = p + index_bytes(words, rows, start) + s;
        let w = encode_utf8(words[0]);
        let len0 = rows[0].len();
        let e = entry_bytes(w, start as u64, len0 as u64);
        let rest = index_bytes(words.drop_first(), rows.drop_first(), start + len0);
        assert(index_bytes(words, rows, start) == e + rest);
        assert(data_bytes(rows) == rows[0] + data_bytes(rows.drop_first()));
        let p2 = p + e;
        assert(b =~= p2 + rest + s);
        assert(w.len() <= b.len());
        let o1 = p.len() + 8;
        let o2 = o1 + w.len();
        assert(b =~= p + spec_u64_to_le_bytes(w.len() as u64) + (w + spec_u64_to_le_bytes(
            start as u64,
        ) + spec_u64_to_le_bytes(len0 as u64) + rest + s));
        lemma_u64_read(
            p,
            w.len() as u64,
            w + spec_u64_to_le_bytes(start as u64) + spec_u64_to_le_bytes(len0 as u64) + rest + s,
        );
        assert(b.subrange(o1 as int, o2 as int) =~= w);
        let p_off = p + spec_u64_to_le_bytes(w.len() as u64) + w;
        assert(b =~= p_off + spec_u64_to_le_bytes(start as u64) + (spec_u64_to_le_bytes(
            len0 as u64,
        ) + rest + s));
        lemma_u64_read(p_off, start as u64, spec_u64_to_le_bytes(len0 as u64) + rest + s);
        let p_len = p_off + spec_u64_to_le_bytes(start as u64);
        assert(b =~= p_len + spec_u64_to_le_bytes(len0 as u64) + (rest + s));
        lemma_u64_read(p_len, len0 as u64, rest + s);
        assert(p2.len() == o2 + 16);
        lemma_read_index(p2, words.drop_first(), rows.drop_first(), start + len0, s);
        assert(raw_entries(words, rows, start) == seq![(w, start as u64, len0 as u64)]
            + raw_entries(words.drop_first(), rows.drop_first(), start + len0));
    }
}

/// The vectors lie in the data section where their entries place them.
proof fn lemma_rows_in_data(words: Seq<Seq<char>>, rows: Seq<Seq<u8>>, start: nat)
    requires
        words.len() == rows.len(),
        start + data_bytes(rows).len() <= u64::MAX,
    ensures
        raw_entries(words, rows, start).len() == words.len(),
        forall|i: int|
            0 <= i < words.len() ==> {
                let e = #[trigger] raw_entries(words, rows, start)[i];
                &&& e.0 == encode_utf8(words[i])
                &&& e.2 == rows[i].len()
                &&& start <= e.1
                &&& e.1 - start + rows[i].len() <= data_bytes(rows).len()
                &&& data_bytes(rows).subrange(e.1 - start, e.1 - start + rows[i].len()) == rows[i]
            },
    decreases words.len(),
{
    if words.len() > 0 {
        let len0 = rows[0].len();
        let d = data_bytes(rows);
        let rest = raw_entries(words.drop_first(), rows.drop_first(), start + len0);
        assert(d == rows[0] + data_bytes(rows.drop_first()));
        lemma_rows_in_data(words.drop_first(), rows.drop_first(), start + len0);
        assert forall|i: int| 0 <= i < words.len() implies {
            let e = #[trigger] raw_entries(words, rows, start)[i];
            &&& e.0 == encode_utf8(words[i])
            &&& e.2 == rows[i].len()
            &&& start <= e.1
            &&& e.1 - start + rows[i].len() <= data_bytes(rows).len()
            &&& data_bytes(rows).subrange(e.1 - start, e.1 - start + rows[i].len()) == rows[i]
        } by {
            if i == 0 {
                assert(d.subrange(0, len0 as int) =~= rows[0]);
            } else {
                let e = rest[i - 1];
                assert(raw_entries(words, rows, start)[i] == e);
                assert(words.drop_first()[i - 1] == words[i]);
                assert(rows.drop_first()[i - 1] == rows[i]);
                let o = e.1 - (start + len0);
                assert(d.subrange(e.1 - start, e.1 - start + rows[i].len()) =~= data_bytes(
                    rows.drop_first(),
                ).subrange(o, o + rows[i].len()));
            }
        }
    }
}

/// File law: reading back the file written for words and their vectors
/// finds each word, decoded unchanged, with the dimension of the vectors,
/// and at the place its entry gives, the bytes of its vector.
pub proof fn lemma_mmap_roundtrip(words: Seq<Seq<char>>, rows: Seq<Seq<u8>>)
    requires
        words.len() == rows.len(),
        words.len() <= u64::MAX,
        file_bytes(words, rows).len() <= usize::MAX,
    ensures
        parse_file(file_bytes(words, rows)) matches Ok(p) && {
            let b = file_bytes(words, rows);
            &&& p.0.len() == words.len()
            &&& p.1 == row_dim(rows)
            &&& forall|i: int|
                0 <= i < words.len() ==> {
                    let e = #[trigger] p.0[i];
                    &&& valid_utf8(e.0)
                    &&& decode_utf8(e.0) == words[i]
                    &&& e.2 == rows[i].len()
                    &&& p.2 + e.1 + e.2 <= b.len()
                    &&& b.subrange(p.2 + e.1, p.2 + e.1 + e.2) == rows[i]
                }
        },
{
    lemma_auto_spec_u64_to_from_le_bytes();
    lemma_auto_spec_u32_to_from_le_bytes();
    let n = words.len();
    let dim = row_dim(rows);
    let h = header_bytes(n as u64, dim as u64);
    let ix = index_bytes(words, rows, 0);
    let d = data_bytes(rows);
    let b = file_bytes(words, rows);
    assert(b == h + ix + d);
    assert(h.len() == 24);
    if rows.len() > 0 {
        assert(d == rows[0] + data_bytes(rows.drop_first()));
    }
    assert(dim <= d.len());
    lemma_read_index(h, words, rows, 0, d);
    lemma_rows_in_data(words, rows, 0);
    assert(b.take(4) =~= magic());
    assert(b.subrange(4, 8) =~= spec_u32_to_le_bytes(1));
    assert(b =~= magic() + spec_u32_to_le_bytes(1) + spec_u64_to_le_bytes(n as u64) + (
    spec_u64_to_le_bytes(dim as u64) + ix + d));
    lemma_u64_read(magic() + spec_u32_to_le_bytes(1), n as u64, spec_u64_to_le_bytes(dim as u64)
        + ix + d);
    assert(b =~= magic() + spec_u32_to_le_bytes(1) + spec_u64_to_le_bytes(n as u64)
        + spec_u64_to_le_bytes(dim as u64) + (ix + d));
    lemma_u64_read(
        magic() + spec_u32_to_le_bytes(1) + spec_u64_to_le_bytes(n as u64),
        dim as u64,
        ix + d,
    );
    let start = 24 + ix.len();
    assert forall|i: int| 0 <= i < words.len() implies {
        let e = #[trigger] raw_entries(words, rows, 0)[i];
        &&& valid_utf8(e.0)
        &&& decode_utf8(e.0) == words[i]
        &&& e.2 == rows[i].len()
        &&& start + e.1 + e.2 <= b.len()
        &&& b.subrange(start + e.1, start + e.1 + e.2) == rows[i]
    } by {
        let e = raw_entries(words, rows, 0)[i];
        encode_utf8_valid_utf8(words[i]);
        encode_utf8_decode_utf8(words[i]);
        assert(b.subrange(start + e.1, start + e.1 + e.2) =~= d.subrange(e.1 as int, e.1 + e.2));
    }
}

/// The id map knows exactly the listed words and, when no word is listed
/// twice, sends each to its own place.
proof fn lemma_places_map(words: Seq<Seq<char>>, places: Seq<(u64, u64)>)
    requires
        words.len() == places.len(),
    ensures
        places_map(words, places).dom() == words.to_set(),
        words.no_duplicates() ==> forall|i: int|
            0 <= i < words.len() ==> places_map(words, places)[#[trigger] words[i]] == places[i],
    decreases words.len(),
{
    if words.len() == 0 {
        assert(words.to_set() =~= Set::<Seq<char>>::empty());
    } else {
        let ws = words.drop_last();
        let ps = places.drop_last();
        lemma_places_map(ws, ps);
        assert(words =~= ws.push(words.last()));
        ws.lemma_push_to_set_commute(words.last());
        assert(places_map(words, places).dom() =~= words.to_set());
        if words.no_duplicates() {
            assert(ws.no_duplicates()) by {
                assert forall|a: int, b: int| 0 <= a < b < ws.len() implies ws[a] != ws[b] by {
                    assert(words[a] != words[b]);
                }
            }
            assert forall|i: int| 0 <= i < words.len() implies places_map(words, places)[
                #[trigger] words[i]] == places[i] by {
                if i < ws.len() {
                    assert(words[i] != words.last());
                    assert(ws[i] == words[i]);
                }
            }
        }
    }
}

/// Index law: the index read from the file written for words and their
/// vectors lists the words in order, states the vectors' dimension and knows
/// exactly those words; when no word is listed twice, each word's recorded
/// place, taken from the start of the data section, holds the bytes of its
/// vector.
pub proof fn lemma_mmap_index_roundtrip(words: Seq<Seq<char>>, rows: Seq<Seq<u8>>, index: MmapIndex)
    requires
        words.len() == rows.len(),
        words.len() <= u64::MAX,
        file_bytes(words, rows).len() <= usize::MAX,
        parse_file(file_bytes(words, rows)) matches Ok(p) && index.matches(p.0, p.1, p.2),
    ensures
        index.words.deep_view() == words,
        index.dim == row_dim(rows),
        index.vocab@.dom() == words.to_set(),
        words.no_duplicates() ==> forall|i: int|
            0 <= i < words.len() ==> {
                let place = index.vocab@[#[trigger] words[i]];
                let b = file_bytes(words, rows);
                &&& index.data_offset + place.0 + place.1 <= b.len()
                &&& b.subrange(
                    index.data_offset + place.0,
                    index.data_offset + place.0 + place.1,
                ) == rows[i]
            },
{
    lemma_mmap_roundtrip(words, rows);
    let b = file_bytes(words, rows);
    let p = parse_file(b)->Ok_0;
    assert(index.words.deep_view() =~= words) by {
        assert forall|i: int| 0 <= i < words.len() implies index.words.deep_view()[i] == words[i] by {
            let e = p.0[i];
            assert(valid_utf8(e.0));
            assert(index.words@[i]@ == decode_utf8(e.0));
        }
    }
    lemma_places_map(index.words.deep_view(), index.places@);
    if words.no_duplicates() {
        assert forall|i: int| 0 <= i < words.len() implies {
            let place = index.vocab@[#[trigger] words[i]];
            &&& index.data_offset + place.0 + place.1 <= b.len()
            &&& b.subrange(index.data_offset + place.0, index.data_offset + place.0 + place.1)
                == rows[i]
        } by {
            assert(index.vocab@[words[i]] == index.places@[i]);
            assert(index.places@[i] == (p.0[i].1, p.0[i].2));
            let e = p.0[i];
            assert(p.2 + e.1 + e.2 <= b.len());
        }
    }
}

impl MmapIndex {
    /// The index read from entries.
    pub open spec fn matches(&self, entries: Seq<RawEntry>, dim: u64, data_offset: nat) -> bool {
        &&& self.words@.len() == entries.len()
        &&& self.places@ == Seq::new(entries.len(), |i: int| (entries[i].1, entries[i].2))
        &&& forall|i: int|
            0 <= i < entries.len() ==> (#[trigger] self.words@[i])@ == utf8_lossy(entries[i].0)
                && (valid_utf8(entries[i].0) ==> self.words@[i]@ == decode_utf8(entries[i].0))
        &&& self.vocab@ == places_map(self.words.deep_view(), self.places@)
        &&& self.distinct.deep_view() == first_occurrences(self.words.deep_view())
        &&& self.dim == dim
        &&& self.data_offset == data_offset
    }

    /// The byte range of a word's vector in a file of `file_len` bytes:
    /// `None` when the word is not in the index or the range runs past the end.
    pub fn row_range(&self, word: &str, file_len: usize) -> (r: Option<(usize, usize)>)
        requires
            self.vocab@.contains_key(word@) ==> self.data_offset + self.vocab@[word@].0
                + self.vocab@[word@].1 <= usize::MAX,
        ensures
            r == (if !self.vocab@.contains_key(word@) {
                None
            } else {
                let start = self.data_offset + self.vocab@[word@].0;
                let end = start + self.vocab@[word@].1;
                if end > file_len {
                    None
                } else {
                    Some((start as usize, end as usize))
                }
            }),
    {
        match self.vocab.get(word) {
            None => None,
            Some(place) => {
                let start = self.data_offset + place.0 as usize;
                let end = start + place.1 as usize;
                if end > file_len {
                    None
                } else {
                    Some((start, end))
                }
            },
        }
    }

    /// Reads the header and index of a memory-mappable file.
    pub fn parse(b: &[u8]) -> (r: Result<MmapIndex, MmapError>)
        ensures
            match (r, parse_file(b@)) {
                (Ok(index), Ok(p)) => index.matches(p.0, p.1, p.2),
                (Err(e), Err(f)) => e == f,
                _ => false,
            },
    {
        let ghost bv = b@;
        if b.len() < 20 {
            return Err(MmapError::TooSmall);
        }
        if !(b[0] == 69u8 && b[1] == 77u8 && b[2] == 66u8 && b[3] == 68u8) {
            assert(bv.take(4) != magic()) by {
                if bv.take(4) == magic() {
                    assert(bv.take(4)[0] == bv[0]);
                    assert(bv.take(4)[1] == bv[1]);
                    assert(bv.take(4)[2] == bv[2]);
                    assert(bv.take(4)[3] == bv[3]);
                }
            }
            return Err(MmapError::BadMagic);
        }
        assert(bv.take(4) =~= magic());
        let version = u32_from_le_bytes(&b[4..8]);
        assert(b@.subrange(4, 8) =~= bv.subrange(4, 8));
        if version != 1 {
            return Err(MmapError::UnsupportedVersion(version));
        }
        assert(header_ok(bv));
        if b.len() < 24 {
            return Err(MmapError::TooSmall);
        }
        let count = u64_from_le_bytes(&b[8..16]);
        assert(b@.subrange(8, 16) =~= bv.subrange(8, 16));
        let dim = u64_from_le_bytes(&b[16..24]);
        assert(b@.subrange(16, 24) =~= bv.subrange(16, 24));
        let mut words: Vec<String> = Vec::new();
        let mut places: Vec<(u64, u64)> = Vec::new();
        let mut offset: usize = 24;
        let mut read: u64 = 0;
        let ghost mut done: Seq<RawEntry> = seq![];
        assert(prepend(done, read_entries(bv, 24, count as nat)) =~= read_entries(bv, 24, count as nat)) by {
            match read_entries(bv, 24, count as nat) {
                Ok(x) => { assert(done + x.0 =~= x.0); },
                Err(_) => {},
            }
        }
        while read < count
            invariant
                bv == b@,
                header_ok(bv),
                bv.len() >= 24,
                dim == u64_at(bv, 16),
                read <= count,
                offset <= b.len(),
                count == u64_at(bv, 8),
                done.len() == read,
                words@.len() == read,
                places@ == Seq::new(done.len(), |i: int| (done[i].1, done[i].2)),
                forall|i: int|
                    0 <= i < done.len() ==> (#[trigger] words@[i])@ == utf8_lossy(done[i].0) && (
                    valid_utf8(done[i].0) ==> words@[i]@ == decode_utf8(done[i].0)),
                read_entries(bv, 24, count as nat) == prepend(
                    done,
                    read_entries(bv, offset as nat, (count - read) as nat),
                ),
            decreases count - read,
        {
            let ghost rem = (count - read) as nat;
            if b.len() - offset < 8 {
                assert(read_entries(bv, offset as nat, rem) == Err::<(Seq<RawEntry>, nat), MmapError>(
                    MmapError::CorruptIndex,
                ));
                return Err(MmapError::CorruptIndex);
            }
            let wl = u64_from_le_bytes(&b[offset..offset + 8]);
            assert(b@.subrange(offset as int, offset + 8) =~= bv.subrange(offset as int, offset + 8));
            let o1 = offset + 8;
            if wl > (b.len() - o1) as u64 {
                assert(read_entries(bv, offset as nat, rem) == Err::<(Seq<RawEntry>, nat), MmapError>(
                    MmapError::CorruptEntry,
                ));
                return Err(MmapError::CorruptEntry);
            }
            let o2 = o1 + wl as usize;
            if b.len() - o2 < 16 {
                assert(read_entries(bv, offset as nat, rem) == Err::<(Seq<RawEntry>, nat), MmapError>(
                    MmapError::CorruptDataOffset,
                ));
                return Err(MmapError::CorruptDataOffset);
            }
            let word = lossy_string(&b[o1..o2]);
            assert(b@.subrange(o1 as int, o2 as int) =~= bv.subrange(o1 as int, o2 as int));
            let data_off = u64_from_le_bytes(&b[o2..o2 + 8]);
            assert(b@.subrange(o2 as int, o2 + 8) =~= bv.subrange(o2 as int, o2 + 8));
            let data_len = u64_from_le_bytes(&b[o2 + 8..o2 + 16]);
            assert(b@.subrange(o2 + 8, o2 + 16) =~= bv.subrange(o2 + 8, o2 + 16));
            let ghost e: RawEntry = (bv.subrange(o1 as int, o2 as int), data_off, data_len);
            proof {
                match read_entries(bv, (o2 + 16) as nat, (rem - 1) as nat) {
                    Ok(x) => {
                        assert(done + (seq![e] + x.0) =~= done.push(e) + x.0);
                    },
                    Err(_) => {},
                }
            }
            words.push(word);
            places.push((data_off, data_len));
            proof {
                done = done.push(e);
            }
            assert(places@ =~= Seq::new(done.len(), |i: int| (done[i].1, done[i].2)));
            offset = o2 + 16;
            read = read + 1;
        }
        assert(done + Seq::<RawEntry>::empty() =~= done);
        let mut vocab: StringHashMap<(u64, u64)> = StringHashMap::new();
        let mut distinct: Vec<String> = Vec::new();
        let ghost wv = words.deep_view();
        let mut i: usize = 0;
        assert(distinct.deep_view() =~= first_occurrences(wv.take(0)));
        assert(vocab@ =~= places_map(wv.take(0), places@.take(0)));
        while i < words.len()
            invariant
                i <= words@.len(),
                words@.len() == places@.len(),
                wv == words.deep_view(),
                vocab@ == places_map(wv.take(i as int), places@.take(i as int)),
                distinct.deep_view() == first_occurrences(wv.take(i as int)),
                vocab@.dom() == distinct.deep_view().to_set(),
            decreases words.len() - i,
        {
            let ghost dv = distinct.deep_view();
            assert(wv.take(i + 1).drop_last() =~= wv.take(i as int));
            assert(places@.take(i + 1).drop_last() =~= places@.take(i as int));
            assert(wv[i as int] == words@[i as int]@);
            if !vocab.contains_key(words[i].as_str()) {
                assert(!dv.contains(wv[i as int])) by {
                    if dv.contains(wv[i as int]) {
                        assert(dv.to_set().contains(wv[i as int]));
                    }
                }
                distinct.push(words[i].clone());
                assert(distinct.deep_view() =~= dv.push(wv[i as int]));
                proof {
                    dv.lemma_push_to_set_commute(wv[i as int]);
                }
            } else {
                assert(dv.contains(wv[i as int])) by {
                    assert(dv.to_set().contains(wv[i as int]));
                }
            }
            vocab.insert(words[i].clone(), places[i]);
            assert(vocab@.dom() =~= distinct.deep_view().to_set());
            i = i + 1;
        }
        assert(wv.take(i as int) =~= wv);
        assert(places@.take(i as int) =~= places@);
        Ok(MmapIndex { words, places, vocab, distinct, dim, data_offset: offset })
    }
}

} // verus!
