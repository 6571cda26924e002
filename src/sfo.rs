//! Decoder for SFO (System File Object) tables: typed key/value tables that
//! PKG containers carry as `param.sfo`.

use vstd::prelude::*;
use crate::bytes::{u16_le, u32_le, u16_le_at, u32_le_at, extract_string, c_string};
use crate::text::{
    decode_lossy, decimal_of, decimal_string, hex_of, str_equal, to_hex, trim_nuls,
    trim_trailing_nuls, utf8_lossy,
};

verus! {

/// Why an SFO buffer could not be decoded.
#[derive(Debug, Clone, Copy, PartialEq, Eq, Structural)]
pub enum SfoError {
    /// The buffer does not start with `\0PSF`.
    InvalidMagic,
    /// The buffer is shorter than the 20-byte header.
    TooSmallForHeader,
    /// The buffer is shorter than the header plus the entry table.
    TooSmallForEntries,
    /// An integer entry whose data is longer than four bytes.
    MalformedInteger,
}

/// Size of the SFO header.
pub const SFO_HEADER_SIZE: usize = 20;
/// Size of one SFO index row.
pub const SFO_ENTRY_SIZE: usize = 16;
/// Type tag of a UTF-8 string value.
pub const SFO_TYPE_UTF8: u16 = 0x0204;
/// Type tag of a little-endian 32-bit integer value.
pub const SFO_TYPE_INT32: u16 = 0x0404;

pub open spec fn has_sfo_magic(b: Seq<u8>) -> bool {
    b.len() >= 4 && b[0] == 0 && b[1] == 0x50 && b[2] == 0x53 && b[3] == 0x46
}

pub open spec fn key_table_start(b: Seq<u8>) -> int {
    u32_le(b, 8)
}

pub open spec fn data_table_start(b: Seq<u8>) -> int {
    u32_le(b, 12)
}

pub open spec fn entry_count(b: Seq<u8>) -> int {
    u32_le(b, 16)
}

/// Offset of index row `i`.
pub open spec fn row_offset(i: int) -> int {
    20 + 16 * i
}

pub open spec fn key_offset(b: Seq<u8>, i: int) -> int {
    key_table_start(b) + u16_le(b, row_offset(i))
}

pub open spec fn data_type(b: Seq<u8>, i: int) -> int {
    u16_le(b, row_offset(i) + 2)
}

pub open spec fn data_start(b: Seq<u8>, i: int) -> int {
    data_table_start(b) + u32_le(b, row_offset(i) + 12)
}

pub open spec fn data_end(b: Seq<u8>, i: int) -> int {
    data_start(b, i) + u32_le(b, row_offset(i) + 4)
}

/// Row `i` names a key and a data slice that both lie inside the buffer;
/// rows that do not are skipped.
pub open spec fn row_in_range(b: Seq<u8>, i: int) -> bool {
    key_offset(b, i) < b.len() && data_end(b, i) <= b.len()
}

/// The value that a raw data slice of type `ty` decodes to; `None` for an
/// integer entry longer than four bytes.
pub open spec fn decode_value(ty: int, raw: Seq<u8>) -> Option<Seq<char>> {
    if ty == 0x0204 {
        Some(trim_trailing_nuls(utf8_lossy(raw)))
    } else if ty == 0x0404 {
        if raw.len() < 4 {
            Some(hex_of(raw))
        } else if raw.len() == 4 {
            Some(decimal_of(u32_le(raw, 0) as nat))
        } else {
            None
        }
    } else {
        Some(hex_of(raw))
    }
}

/// The key/value pairs of the first `n` rows, in row order.
pub open spec fn sfo_rows(b: Seq<u8>, n: int) -> Result<Seq<(Seq<char>, Seq<char>)>, SfoError>
    decreases n,
{
    if n <= 0 {
        Ok(Seq::empty())
    } else {
        match sfo_rows(b, n - 1) {
            Err(e) => Err(e),
            Ok(s) => if !row_in_range(b, n - 1) {
                Ok(s)
            } else {
                match decode_value(
                    data_type(b, n - 1),
                    b.subrange(data_start(b, n - 1), data_end(b, n - 1)),
                ) {
                    None => Err(SfoError::MalformedInteger),
                    Some(v) => Ok(s.push((utf8_lossy(c_string(b, key_offset(b, n - 1))), v))),
                }
            },
        }
    }
}

/// What decoding the SFO buffer `b` gives.
pub open spec fn sfo_parse(b: Seq<u8>) -> Result<Seq<(Seq<char>, Seq<char>)>, SfoError> {
    if !has_sfo_magic(b) {
        Err(SfoError::InvalidMagic)
    } else if b.len() < 20 {
        Err(SfoError::TooSmallForHeader)
    } else if b.len() < 20 + 16 * entry_count(b) {
        Err(SfoError::TooSmallForEntries)
    } else {
        sfo_rows(b, entry_count(b))
    }
}

/// The value bound to `k`: the last pair with that key wins.
pub open spec fn lookup(s: Seq<(Seq<char>, Seq<char>)>, k: Seq<char>) -> Option<Seq<char>>
    decreases s.len(),
{
    if s.len() == 0 {
        None
    } else if s.last().0 == k {
        Some(s.last().1)
    } else {
        lookup(s.drop_last(), k)
    }
}

/// A decoded SFO table: its pairs in row order. A key that occurs twice is
/// bound to its later value.
#[derive(Debug, Clone)]
pub struct SfoTable {
    pub entries: Vec<(String, String)>,
}

pub open spec fn pairs_view(s: Seq<(String, String)>) -> Seq<(Seq<char>, Seq<char>)> {
    s.map_values(|p: (String, String)| (p.0@, p.1@))
}

impl View for SfoTable {
    type V = Seq<(Seq<char>, Seq<char>)>;

    open spec fn view(&self) -> Seq<(Seq<char>, Seq<char>)> {
        pairs_view(self.entries@)
    }
}

impl SfoTable {
    /// The value bound to `key`, if any.
    pub fn get(&self, key: &str) -> (r: Option<String>)
        ensures
            r is Some <==> lookup(self@, key@) is Some,
            r is Some ==> r->Some_0@ == lookup(self@, key@)->Some_0,
    {
        let mut i: usize = self.entries.len();
        assert(self.entries@.subrange(0, i as int) =~= self.entries@);
        while i > 0
            invariant
                i <= self.entries@.len(),
                lookup(self@, key@) == lookup(pairs_view(self.entries@.subrange(0, i as int)), key@),
            decreases i,
        {
            let ghost pre = pairs_view(self.entries@.subrange(0, i as int));
            assert(pre.drop_last() =~= pairs_view(self.entries@.subrange(0, i - 1)));
            if str_equal(self.entries[i - 1].0.as_str(), key) {
                return Some(self.entries[i - 1].1.clone());
            }
            i = i - 1;
        }
        assert(pairs_view(self.entries@.subrange(0, 0)) =~= Seq::empty());
        None
    }
}

/// Decodes the value of one entry; `None` for an integer entry that is
/// longer than four bytes.
fn decode_entry(ty: u16, raw: &[u8]) -> (r: Option<String>)
    ensures
        r is Some <==> decode_value(ty as int, raw@) is Some,
        r is Some ==> r->Some_0@ == decode_value(ty as int, raw@)->Some_0,
{
    if ty == SFO_TYPE_UTF8 {
        let s = decode_lossy(raw);
        Some(trim_nuls(s.as_str()))
    } else if ty == SFO_TYPE_INT32 {
        if raw.len() < 4 {
            Some(to_hex(raw))
        } else if raw.len() == 4 {
            let v = u32_le_at(raw, 0);
            Some(decimal_string(v as u64))
        } else {
            None
        }
    } else {
        Some(to_hex(raw))
    }
}

/// Once the rows fail, more rows do not make them succeed.
proof fn lemma_rows_err_persists(b: Seq<u8>, n: int, m: int)
    requires
        0 <= n <= m,
        sfo_rows(b, n) is Err,
    ensures
        sfo_rows(b, m) == sfo_rows(b, n),
    decreases m - n,
{
    if m > n {
        lemma_rows_err_persists(b, n, m - 1);
    }
}

/// Decodes index row `i`: `Ok(None)` when it is skipped.
fn decode_row(b: &[u8], i: u64) -> (r: Result<Option<(String, String)>, SfoError>)
    requires
        b@.len() >= 20,
        i < entry_count(b@),
        20 + 16 * entry_count(b@) <= b@.len(),
    ensures
        !row_in_range(b@, i as int) ==> r == Ok::<Option<(String, String)>, SfoError>(None),
        row_in_range(b@, i as int) ==> match decode_value(
            data_type(b@, i as int),
            b@.subrange(data_start(b@, i as int), data_end(b@, i as int)),
        ) {
            None => r == Err::<Option<(String, String)>, SfoError>(SfoError::MalformedInteger),
            Some(v) => r is Ok && r->Ok_0 is Some && r->Ok_0->Some_0.0@ == utf8_lossy(
                c_string(b@, key_offset(b@, i as int)),
            ) && r->Ok_0->Some_0.1@ == v,
        },
{
    let len = b.len() as u64;
    let key_table = u32_le_at(b, 8) as u64;
    let data_table = u32_le_at(b, 12) as u64;
    let row = (20 + 16 * i) as usize;
    let key_pos = u16_le_at(b, row) as u64;
    let ty = u16_le_at(b, row + 2);
    let size = u32_le_at(b, row + 4) as u64;
    let data_pos = u32_le_at(b, row + 12) as u64;
    let key_at = key_table + key_pos;
    let start = data_table + data_pos;
    let end = start + size;
    if key_at < len && end <= len {
        let key = extract_string(b, key_at as usize);
        let raw = &b[start as usize..end as usize];
        match decode_entry(ty, raw) {
            None => Err(SfoError::MalformedInteger),
            Some(v) => Ok(Some((key, v))),
        }
    } else {
        Ok(None)
    }
}

/// Decoder of SFO tables.
#[derive(Debug, Clone, Copy)]
pub struct SFOProcessor;

impl SFOProcessor {
    pub fn new() -> (r: Self) {
        SFOProcessor
    }

    /// Decodes an SFO buffer into its key/value pairs.
    ///
    /// Rows whose key or data lie outside the buffer are skipped.
    pub fn process(&self, buffer: Vec<u8>) -> (r: Result<SfoTable, SfoError>)
        ensures
            r is Ok <==> sfo_parse(buffer@) is Ok,
            r is Ok ==> r->Ok_0@ == sfo_parse(buffer@)->Ok_0,
            r is Err ==> r->Err_0 == sfo_parse(buffer@)->Err_0,
    {
        let b = buffer.as_slice();
        let len = b.len();
        if !(len >= 4 && b[0] == 0 && b[1] == 0x50 && b[2] == 0x53 && b[3] == 0x46) {
            return Err(SfoError::InvalidMagic);
        }
        if len < SFO_HEADER_SIZE {
            return Err(SfoError::TooSmallForHeader);
        }
        let count = u32_le_at(b, 16) as u64;
        if (len as u64) < 20 + 16 * count {
            return Err(SfoError::TooSmallForEntries);
        }
        let mut entries: Vec<(String, String)> = Vec::new();
        let mut i: u64 = 0;
        assert(pairs_view(entries@) =~= Seq::empty());
        while i < count
            invariant
                b@ == buffer@,
                len == b@.len(),
                len >= 20,
                has_sfo_magic(b@),
                count == entry_count(b@),
                20 + 16 * count <= len,
                i <= count,
                sfo_rows(b@, i as int) == Ok::<Seq<(Seq<char>, Seq<char>)>, SfoError>(
                    pairs_view(entries@),
                ),
            decreases count - i,
        {
            match decode_row(b, i) {
                Err(e) => {
                    proof {
                        assert(e == SfoError::MalformedInteger);
                        assert(sfo_rows(b@, i + 1) is Err);
                        lemma_rows_err_persists(b@, i + 1, count as int);
                    }
                    return Err(e);
                },
                Ok(None) => {},
                Ok(Some(pair)) => {
                    let ghost old_entries = entries@;
                    entries.push(pair);
                    assert(pairs_view(entries@) =~= pairs_view(old_entries).push(
                        (pair.0@, pair.1@),
                    ));
                },
            }
            i = i + 1;
        }
        Ok(SfoTable { entries })
    }
}

} // verus!
