//! Reader of PKG containers. The reader does no I/O of its own: it decodes
//! the header, the entry table and the name buffer from bytes that the caller
//! reads at the offsets the reader names, and it locates sub-files by id or
//! by name.

use vstd::prelude::*;
use crate::bytes::{u32_be, u32_be_at, c_string, extract_string};
use crate::text::{decode_lossy, str_equal, hex_of, to_hex, trim_nuls, trim_trailing_nuls, utf8_lossy};

verus! {

#[derive(Debug, Clone, Copy, PartialEq, Eq, Structural)]
pub enum DRMCategory {
    NoDrm,
    PS4,
}

#[derive(Debug, Clone, Copy, PartialEq, Eq, Structural)]
pub enum ContentCategory {
    Game,
    DLC,
    App,
    Demo,
}

#[derive(Debug, Clone, Copy, PartialEq, Eq, Structural)]
pub enum IROCategory {
    SFTheme,
    SysTheme,
}

/// Why a PKG container could not be read, or a sub-file not found.
#[derive(Debug, Clone, Copy, PartialEq, Eq, Structural)]
pub enum PkgError {
    /// The file is shorter than the fixed header.
    TooSmallForHeader,
    /// The first four bytes are not the PKG magic.
    InvalidMagic,
    /// The file ends before the entry table does.
    TooSmallForEntryTable,
    /// No row of the entry table could be read.
    NoEntries,
    /// The entry table has no row with the file-table id.
    MissingFileTable,
    /// The file ends before the name buffer does.
    TooSmallForNameBuffer,
    /// No entry has the requested id or name.
    FileNotFound,
    /// The entry's data extends past the end of the file.
    FileOutOfBounds,
}

/// Magic number at the start of every PKG container.
pub const PKG_MAGIC: u32 = 0x7F434E54;
/// Number of header bytes the reader decodes.
pub const PKG_HEADER_SIZE: usize = 416;
/// Size of one entry-table row.
pub const PKG_ENTRY_SIZE: u64 = 32;
/// Entry id of the file-name table.
pub const FILE_POS: u32 = 0x0200;
/// Offset of the digest block.
pub const HASH_POS: usize = 0x100;

// Header layout, big-endian: magic 0x00, pkg_type 0x04, file_count 0x0C,
// entry_count 0x10, sc_entry_count 0x14, table_pos 0x18, entry_data_size 0x1C,
// body and content extents 0x20..0x40, content_id 0x40 (36 bytes, then 12 of
// padding), drm_type 0x70, content_type 0x74, four words and 32 bytes not
// used, iro_type 0xA8, digests from 0x100.

pub open spec fn drm_of(v: int) -> DRMCategory {
    if v == 0xF {
        DRMCategory::PS4
    } else {
        DRMCategory::NoDrm
    }
}

pub open spec fn content_of(v: int) -> ContentCategory {
    if v == 0x1B {
        ContentCategory::DLC
    } else if v == 0x1C {
        ContentCategory::App
    } else if v == 0x1E {
        ContentCategory::Demo
    } else {
        ContentCategory::Game
    }
}

pub open spec fn iro_of(v: int) -> Option<IROCategory> {
    if v == 1 {
        Some(IROCategory::SFTheme)
    } else if v == 2 {
        Some(IROCategory::SysTheme)
    } else {
        None
    }
}

/// Digest `i` (0 to 3) of a header: 16 bytes from the digest block, in hex.
pub open spec fn digest_of(h: Seq<u8>, i: int) -> Seq<char> {
    hex_of(h.subrange(0x100 + 16 * i, 0x100 + 16 * i + 16))
}

/// The content id of a header: 36 bytes at 0x40, decoded, NULs trimmed.
pub open spec fn content_id_of(h: Seq<u8>) -> Seq<char> {
    trim_trailing_nuls(utf8_lossy(h.subrange(0x40, 0x64)))
}

/// Why a header fails, if it does.
pub open spec fn header_error(file_size: int, h: Seq<u8>) -> Option<PkgError> {
    if file_size < 416 || h.len() < 416 {
        Some(PkgError::TooSmallForHeader)
    } else if u32_be(h, 0) != 0x7F434E54 {
        Some(PkgError::InvalidMagic)
    } else {
        None
    }
}

/// The fields of a PKG header that the reader keeps.
#[derive(Debug)]
pub struct PkgHeader {
    pub entry_count: u32,
    pub table_pos: u64,
    pub entry_data_size: u64,
    pub content_id: String,
    pub drm_type: DRMCategory,
    pub content_type: ContentCategory,
    pub iro_type: Option<IROCategory>,
    pub hashes: Vec<String>,
}

impl PkgHeader {
    /// `self` holds what the header bytes `h` say.
    pub open spec fn decodes(&self, h: Seq<u8>) -> bool {
        &&& self.entry_count == u32_be(h, 0x10)
        &&& self.table_pos == u32_be(h, 0x18)
        &&& self.entry_data_size == u32_be(h, 0x1C)
        &&& self.content_id@ == content_id_of(h)
        &&& self.drm_type == drm_of(u32_be(h, 0x70))
        &&& self.content_type == content_of(u32_be(h, 0x74))
        &&& self.iro_type == iro_of(u32_be(h, 0xA8))
        &&& self.hashes@.len() == 4
        &&& forall|i: int| 0 <= i < 4 ==> #[trigger] self.hashes@[i]@ == digest_of(h, i)
    }

    /// The file ends before the entry table does.
    pub open spec fn table_overruns(&self, file_size: int) -> bool {
        file_size < self.table_pos + 32 * self.entry_count
    }

    /// Where the entry table lies, as offset and length, if the file holds it.
    pub fn entry_table_extent(&self, file_size: u64) -> (r: Result<(u64, u64), PkgError>)
        ensures
            self.table_overruns(file_size as int) <==> r is Err,
            r is Err ==> r->Err_0 == PkgError::TooSmallForEntryTable,
            r is Ok ==> r->Ok_0.0 == self.table_pos && r->Ok_0.1 == 32 * self.entry_count,
    {
        let len = 32 * self.entry_count as u64;
        if file_size < self.table_pos || file_size - self.table_pos < len {
            Err(PkgError::TooSmallForEntryTable)
        } else {
            Ok((self.table_pos, len))
        }
    }
}

/// One row of the entry table.
#[derive(Debug, Clone)]
pub struct FileEntry {
    pub name_pos: u32,
    pub flag1: u32,
    pub flag2: u32,
    pub offset: u64,
    pub size: u64,
    pub key_index: u32,
    pub encrypted: bool,
    pub name: Option<String>,
}

/// The entry that row `i` of the table bytes `t` holds, before names are
/// resolved.
pub open spec fn row_entry(t: Seq<u8>, i: int) -> FileEntry {
    let flag1 = u32_be(t, 32 * i + 8) as u32;
    let flag2 = u32_be(t, 32 * i + 12) as u32;
    FileEntry {
        name_pos: u32_be(t, 32 * i + 4) as u32,
        flag1,
        flag2,
        offset: u32_be(t, 32 * i + 16) as u64,
        size: u32_be(t, 32 * i + 20) as u64,
        key_index: (flag2 & 0xF00u32) >> 12u32,
        encrypted: flag1 & 0x8000_0000u32 != 0,
        name: None,
    }
}

/// The entry id of row `i`.
pub open spec fn row_id(t: Seq<u8>, i: int) -> u32 {
    u32_be(t, 32 * i) as u32
}

/// Index of the first pair with id `id`, or -1.
pub open spec fn find_id<E>(s: Seq<(u32, E)>, id: u32) -> int
    decreases s.len(),
{
    if s.len() == 0 {
        -1
    } else if find_id(s.drop_last(), id) >= 0 {
        find_id(s.drop_last(), id)
    } else if s.last().0 == id {
        s.len() - 1
    } else {
        -1
    }
}

/// `s` with `e` bound to `id`: an existing pair is replaced in place,
/// otherwise the pair is appended.
pub open spec fn upsert<E>(s: Seq<(u32, E)>, id: u32, e: E) -> Seq<(u32, E)> {
    if find_id(s, id) >= 0 {
        s.update(find_id(s, id), (id, e))
    } else {
        s.push((id, e))
    }
}

/// The entries of the first `n` rows of `t`, keyed by id; rows that `t` does
/// not hold in full are skipped, a later row overwrites an earlier one with
/// the same id.
pub open spec fn table_entries(t: Seq<u8>, n: int) -> Seq<(u32, FileEntry)>
    decreases n,
{
    if n <= 0 {
        Seq::empty()
    } else if 32 * n <= t.len() {
        upsert(table_entries(t, n - 1), row_id(t, n - 1), row_entry(t, n - 1))
    } else {
        table_entries(t, n - 1)
    }
}

/// Why the entry table fails, if it does.
pub open spec fn table_error(hd: PkgHeader, file_size: int, t: Seq<u8>) -> Option<PkgError> {
    let s = table_entries(t, hd.entry_count as int);
    if hd.table_overruns(file_size) {
        Some(PkgError::TooSmallForEntryTable)
    } else if s.len() == 0 {
        Some(PkgError::NoEntries)
    } else if find_id(s, FILE_POS) < 0 {
        Some(PkgError::MissingFileTable)
    } else if file_size < s[find_id(s, FILE_POS)].1.offset + hd.entry_data_size {
        Some(PkgError::TooSmallForNameBuffer)
    } else {
        None
    }
}

proof fn lemma_find_id_bounds<E>(s: Seq<(u32, E)>, id: u32)
    ensures
        -1 <= find_id(s, id) < s.len(),
        find_id(s, id) >= 0 ==> s[find_id(s, id)].0 == id,
        find_id(s, id) < 0 ==> forall|j: int| 0 <= j < s.len() ==> s[j].0 != id,
    decreases s.len(),
{
    if s.len() > 0 {
        lemma_find_id_bounds(s.drop_last(), id);
        if find_id(s, id) < 0 {
            assert forall|j: int| 0 <= j < s.len() implies s[j].0 != id by {
                if j < s.len() - 1 {
                    assert(s.drop_last()[j] == s[j]);
                }
            }
        }
    }
}

/// Index of the first pair of `v` with id `id`, or -1.
fn position_of_id<E>(v: &Vec<(u32, E)>, id: u32) -> (r: Option<usize>)
    ensures
        r is Some <==> find_id(v@, id) >= 0,
        r is Some ==> r->Some_0 == find_id(v@, id),
{
    let mut i: usize = 0;
    while i < v.len()
        invariant
            i <= v@.len(),
            find_id(v@.subrange(0, i as int), id) == -1,
        decreases v@.len() - i,
    {
        assert(v@.subrange(0, i + 1).drop_last() =~= v@.subrange(0, i as int));
        if v[i].0 == id {
            proof {
                lemma_find_id_first(v@, id, i as int);
            }
            return Some(i);
        }
        i = i + 1;
    }
    assert(v@.subrange(0, i as int) =~= v@);
    None
}

proof fn lemma_find_id_first<E>(s: Seq<(u32, E)>, id: u32, i: int)
    requires
        0 <= i < s.len(),
        s[i].0 == id,
        find_id(s.subrange(0, i), id) == -1,
    ensures
        find_id(s, id) == i,
    decreases s.len(),
{
    if s.len() > i + 1 {
        assert(s.drop_last().subrange(0, i) =~= s.subrange(0, i));
        lemma_find_id_first(s.drop_last(), id, i);
    } else {
        assert(s.drop_last() =~= s.subrange(0, i));
    }
}

/// Binds `e` to `id` in `v`, replacing an existing pair in place.
fn upsert_entry<E>(v: &mut Vec<(u32, E)>, id: u32, e: E)
    ensures
        final(v)@ == upsert(old(v)@, id, e),
{
    proof {
        lemma_find_id_bounds(v@, id);
    }
    match position_of_id(v, id) {
        Some(p) => {
            let _ = v.remove(p);
            v.insert(p, (id, e));
            assert(v@ =~= upsert(old(v)@, id, e));
        },
        None => {
            v.push((id, e));
        },
    }
}

/// Decodes row `i` of the entry table bytes `t`.
fn read_row(t: &[u8], i: usize) -> (r: (u32, FileEntry))
    requires
        32 * i + 32 <= t@.len(),
    ensures
        r.0 == row_id(t@, i as int),
        r.1 == row_entry(t@, i as int),
{
    let n = t.len();
    let base = 32 * i;
    let entry_id = u32_be_at(t, base);
    let name_pos = u32_be_at(t, base + 4);
    let flag1 = u32_be_at(t, base + 8);
    let flag2 = u32_be_at(t, base + 12);
    let offset = u32_be_at(t, base + 16) as u64;
    let size = u32_be_at(t, base + 20) as u64;
    (entry_id, FileEntry {
        name_pos,
        flag1,
        flag2,
        offset,
        size,
        key_index: (flag2 & 0xF00u32) >> 12u32,
        encrypted: flag1 & 0x8000_0000u32 != 0,
        name: None,
    })
}

/// Whether `r` is `e` with its name resolved against the name buffer `nb`:
/// a non-empty string at an in-range offset becomes the name, otherwise
/// the name is left as it was.
pub open spec fn resolves(r: FileEntry, e: FileEntry, nb: Seq<u8>) -> bool {
    let text = utf8_lossy(c_string(nb, e.name_pos as int));
    &&& r.name_pos == e.name_pos
    &&& r.flag1 == e.flag1
    &&& r.flag2 == e.flag2
    &&& r.offset == e.offset
    &&& r.size == e.size
    &&& r.key_index == e.key_index
    &&& r.encrypted == e.encrypted
    &&& if e.name_pos < nb.len() && text.len() > 0 {
        r.name is Some && r.name->Some_0@ == text
    } else {
        r.name == e.name
    }
}

/// Hexadecimal value of a digit, or -1 for a character that is none.
pub open spec fn hex_char_value(c: char) -> int {
    let v = c as u32;
    if 0x30 <= v <= 0x39 {
        v - 0x30
    } else if 0x61 <= v <= 0x66 {
        v - 0x61 + 10
    } else if 0x41 <= v <= 0x46 {
        v - 0x41 + 10
    } else {
        -1
    }
}

pub open spec fn all_hex(s: Seq<char>) -> bool {
    forall|i: int| 0 <= i < s.len() ==> hex_char_value(#[trigger] s[i]) >= 0
}

/// The number that the hexadecimal digits `s` spell.
pub open spec fn hex_number(s: Seq<char>) -> int
    decreases s.len(),
{
    if s.len() == 0 {
        0
    } else {
        16 * hex_number(s.drop_last()) + hex_char_value(s.last())
    }
}

/// The entry id that an identifier of the form `0x` + hex digits names.
pub open spec fn entry_id_of(s: Seq<char>) -> Option<u32> {
    if s.len() > 2 && s[0] == '0' && s[1] == 'x' && all_hex(s.skip(2)) && hex_number(s.skip(2))
        <= u32::MAX {
        Some(hex_number(s.skip(2)) as u32)
    } else {
        None
    }
}

proof fn lemma_hex_monotone(s: Seq<char>, k: int)
    requires
        0 <= k <= s.len(),
        all_hex(s),
    ensures
        0 <= hex_number(s.subrange(0, k)) <= hex_number(s),
    decreases s.len(),
{
    if s.len() > k {
        assert(s.drop_last().subrange(0, k) =~= s.subrange(0, k));
        lemma_hex_monotone(s.drop_last(), k);
    } else {
        assert(s.subrange(0, k) =~= s);
        if s.len() > 0 {
            lemma_hex_monotone(s.drop_last(), k - 1);
            assert(s.drop_last().subrange(0, k - 1) =~= s.drop_last());
        }
    }
}

fn hex_value(c: char) -> (r: i32)
    ensures
        r == hex_char_value(c),
{
    let v = c as u32;
    if 0x30 <= v && v <= 0x39 {
        (v - 0x30) as i32
    } else if 0x61 <= v && v <= 0x66 {
        (v - 0x61 + 10) as i32
    } else if 0x41 <= v && v <= 0x46 {
        (v - 0x41 + 10) as i32
    } else {
        -1
    }
}

/// The entry id named by an identifier of the form `0x` + hex digits.
pub fn parse_entry_id(identifier: &str) -> (r: Option<u32>)
    ensures
        r == entry_id_of(identifier@),
{
    let ghost s = identifier@;
    let n = identifier.unicode_len();
    if n <= 2 || identifier.get_char(0) != '0' || identifier.get_char(1) != 'x' {
        return None;
    }
    let mut acc: u64 = 0;
    let mut i: usize = 2;
    assert(s.subrange(2, 2) =~= Seq::<char>::empty());
    while i < n
        invariant
            2 <= i <= n,
            n == s.len(),
            s == identifier@,
            s[0] == '0' && s[1] == 'x',
            all_hex(s.subrange(2, i as int)),
            acc == hex_number(s.subrange(2, i as int)),
            acc <= u32::MAX,
        decreases n - i,
    {
        let d = hex_value(identifier.get_char(i));
        if d < 0 {
            assert(s.skip(2)[i - 2] == s[i as int]);
            return None;
        }
        assert(s.subrange(2, i + 1).drop_last() =~= s.subrange(2, i as int));
        acc = 16 * acc + d as u64;
        if acc > u32::MAX as u64 {
            proof {
                if all_hex(s.skip(2)) {
                    assert(s.skip(2).subrange(0, i - 1) =~= s.subrange(2, i + 1));
                    lemma_hex_monotone(s.skip(2), i - 1);
                }
            }
            return None;
        }
        i = i + 1;
    }
    assert(s.subrange(2, n as int) =~= s.skip(2));
    Some(acc as u32)
}

/// Index of the first pair whose entry is named `name`, or -1.
pub open spec fn find_name(s: Seq<(u32, FileEntry)>, name: Seq<char>) -> int
    decreases s.len(),
{
    if s.len() == 0 {
        -1
    } else if find_name(s.drop_last(), name) >= 0 {
        find_name(s.drop_last(), name)
    } else if s.last().1.name is Some && s.last().1.name->Some_0@ == name {
        s.len() - 1
    } else {
        -1
    }
}

/// Index of the entry that `identifier` names: by id for `0x` + hex, by name
/// otherwise; -1 when there is none.
pub open spec fn locate_index(s: Seq<(u32, FileEntry)>, identifier: Seq<char>) -> int {
    match entry_id_of(identifier) {
        Some(id) => find_id(s, id),
        None => find_name(s, identifier),
    }
}

/// A decoded PKG container.
#[derive(Debug)]
pub struct PS4Package {
    pub filepath: String,
    pub file_size: u64,
    pub file_entries: Vec<(u32, FileEntry)>,
    pub content_id: String,
    pub content_type: ContentCategory,
    pub iro_type: Option<IROCategory>,
    pub drm_type: DRMCategory,
    pub hashes: Vec<String>,
}

impl PS4Package {
    /// Decodes the fixed header from its first bytes; `file_size` is the
    /// length of the whole container.
    pub fn parse_header(file_size: u64, header: &[u8]) -> (r: Result<PkgHeader, PkgError>)
        ensures
            r is Err <==> header_error(file_size as int, header@) is Some,
            r is Err ==> r->Err_0 == header_error(file_size as int, header@)->Some_0,
            r is Ok ==> r->Ok_0.decodes(header@),
    {
        if file_size < PKG_HEADER_SIZE as u64 || header.len() < PKG_HEADER_SIZE {
            return Err(PkgError::TooSmallForHeader);
        }
        if u32_be_at(header, 0) != PKG_MAGIC {
            return Err(PkgError::InvalidMagic);
        }
        let id_text = decode_lossy(&header[0x40..0x64]);
        let content_id = trim_nuls(id_text.as_str());
        let drm = u32_be_at(header, 0x70);
        let content = u32_be_at(header, 0x74);
        let iro = u32_be_at(header, 0xA8);
        let mut hashes: Vec<String> = Vec::new();
        let mut i: usize = 0;
        while i < 4
            invariant
                i <= 4,
                header@.len() >= 416,
                hashes@.len() == i,
                forall|j: int| 0 <= j < i ==> #[trigger] hashes@[j]@ == digest_of(header@, j),
            decreases 4 - i,
        {
            let start = HASH_POS + 16 * i;
            hashes.push(to_hex(&header[start..start + 16]));
            i = i + 1;
        }
        Ok(PkgHeader {
            entry_count: u32_be_at(header, 0x10),
            table_pos: u32_be_at(header, 0x18) as u64,
            entry_data_size: u32_be_at(header, 0x1C) as u64,
            content_id,
            drm_type: if drm == 0xF {
                DRMCategory::PS4
            } else {
                DRMCategory::NoDrm
            },
            content_type: if content == 0x1B {
                ContentCategory::DLC
            } else if content == 0x1C {
                ContentCategory::App
            } else if content == 0x1E {
                ContentCategory::Demo
            } else {
                ContentCategory::Game
            },
            iro_type: if iro == 1 {
                Some(IROCategory::SFTheme)
            } else if iro == 2 {
                Some(IROCategory::SysTheme)
            } else {
                None
            },
            hashes,
        })
    }

    /// Decodes the entry table from the bytes at `header.table_pos`, and
    /// checks that the file holds the name buffer.
    pub fn parse_files(header: &PkgHeader, file_size: u64, table: &[u8]) -> (r: Result<
        Vec<(u32, FileEntry)>,
        PkgError,
    >)
        ensures
            r is Err <==> table_error(*header, file_size as int, table@) is Some,
            r is Err ==> r->Err_0 == table_error(*header, file_size as int, table@)->Some_0,
            r is Ok ==> r->Ok_0@ == table_entries(table@, header.entry_count as int),
    {
        if header.entry_table_extent(file_size).is_err() {
            return Err(PkgError::TooSmallForEntryTable);
        }
        let count = header.entry_count as usize;
        let mut entries: Vec<(u32, FileEntry)> = Vec::new();
        let mut i: usize = 0;
        while i < count
            invariant
                i <= count,
                count == header.entry_count,
                entries@ == table_entries(table@, i as int),
            decreases count - i,
        {
            if table.len() >= 32 && i <= (table.len() - 32) / 32 {
                let (id, entry) = read_row(table, i);
                upsert_entry(&mut entries, id, entry);
            }
            i = i + 1;
        }
        if entries.len() == 0 {
            return Err(PkgError::NoEntries);
        }
        proof {
            lemma_find_id_bounds(entries@, FILE_POS);
        }
        let p = match position_of_id(&entries, FILE_POS) {
            Some(p) => p,
            None => {
                return Err(PkgError::MissingFileTable);
            },
        };
        let offset = entries[p].1.offset;
        if file_size < offset || file_size - offset < header.entry_data_size {
            return Err(PkgError::TooSmallForNameBuffer);
        }
        Ok(entries)
    }

    /// Where the name buffer lies, as offset and length: at the file-table
    /// entry's offset, `entry_data_size` bytes long.
    pub fn name_buffer_extent(header: &PkgHeader, entries: &Vec<(u32, FileEntry)>) -> (r: Option<
        (u64, u64),
    >)
        ensures
            r is Some <==> find_id(entries@, FILE_POS) >= 0,
            r is Some ==> r->Some_0 == (
                entries@[find_id(entries@, FILE_POS)].1.offset,
                header.entry_data_size,
            ),
    {
        proof {
            lemma_find_id_bounds(entries@, FILE_POS);
        }
        match position_of_id(entries, FILE_POS) {
            None => None,
            Some(p) => Some((entries[p].1.offset, header.entry_data_size)),
        }
    }

    /// Assembles a package from its decoded header and entry table,
    /// resolving entry names against the name buffer.
    pub fn new(
        filepath: String,
        file_size: u64,
        header: PkgHeader,
        entries: Vec<(u32, FileEntry)>,
        name_buffer: &[u8],
    ) -> (r: PS4Package)
        ensures
            r.filepath == filepath,
            r.file_size == file_size,
            r.content_id == header.content_id,
            r.content_type == header.content_type,
            r.iro_type == header.iro_type,
            r.drm_type == header.drm_type,
            r.hashes == header.hashes,
            r.file_entries@.len() == entries@.len(),
            forall|i: int|
                0 <= i < entries@.len() ==> #[trigger] r.file_entries@[i].0 == entries@[i].0
                    && resolves(r.file_entries@[i].1, entries@[i].1, name_buffer@),
    {
        let mut entries = entries;
        let ghost given = entries@;
        let mut resolved: Vec<(u32, FileEntry)> = Vec::new();
        let n = entries.len();
        let mut i: usize = 0;
        while i < n
            invariant
                i <= n,
                n == given.len(),
                entries@.len() == n - i,
                forall|j: int| 0 <= j < n - i ==> entries@[j] == given[i + j],
                resolved@.len() == i,
                forall|j: int|
                    0 <= j < i ==> #[trigger] resolved@[j].0 == given[j].0 && resolves(
                        resolved@[j].1,
                        given[j].1,
                        name_buffer@,
                    ),
            decreases n - i,
        {
            let (id, mut entry) = entries.remove(0);
            let ghost before = entry;
            if (entry.name_pos as usize) < name_buffer.len() {
                let text = extract_string(name_buffer, entry.name_pos as usize);
                if !text.as_str().is_empty() {
                    entry.name = Some(text);
                }
            }
            resolved.push((id, entry));
            i = i + 1;
        }
        PS4Package {
            filepath,
            file_size,
            file_entries: resolved,
            content_id: header.content_id,
            content_type: header.content_type,
            iro_type: header.iro_type,
            drm_type: header.drm_type,
            hashes: header.hashes,
        }
    }

    /// The entry that `identifier` names: `0x` + hex digits is matched
    /// against entry ids, anything else against resolved names.
    pub fn locate_file(&self, identifier: &str) -> (r: Result<&FileEntry, PkgError>)
        ensures
            r is Ok <==> locate_index(self.file_entries@, identifier@) >= 0,
            r is Ok ==> *r->Ok_0 == self.file_entries@[locate_index(
                self.file_entries@,
                identifier@,
            )].1,
            r is Err ==> r->Err_0 == PkgError::FileNotFound,
    {
        match parse_entry_id(identifier) {
            Some(id) => {
                proof {
                    lemma_find_id_bounds(self.file_entries@, id);
                }
                match position_of_id(&self.file_entries, id) {
                    None => Err(PkgError::FileNotFound),
                    Some(p) => Ok(&self.file_entries[p].1),
                }
            },
            None => {
                let mut i: usize = 0;
                while i < self.file_entries.len()
                    invariant
                        i <= self.file_entries@.len(),
                        entry_id_of(identifier@) is None,
                        find_name(self.file_entries@.subrange(0, i as int), identifier@) == -1,
                    decreases self.file_entries@.len() - i,
                {
                    assert(self.file_entries@.subrange(0, i + 1).drop_last()
                        =~= self.file_entries@.subrange(0, i as int));
                    let entry = &self.file_entries[i].1;
                    if let Some(n) = &entry.name {
                        if str_equal(n.as_str(), identifier) {
                            proof {
                                lemma_find_name_first(self.file_entries@, identifier@, i as int);
                            }
                            return Ok(entry);
                        }
                    }
                    i = i + 1;
                }
                assert(self.file_entries@.subrange(0, i as int) =~= self.file_entries@);
                Err(PkgError::FileNotFound)
            },
        }
    }

    /// Where the data of the entry that `identifier` names lies, as offset
    /// and length, provided it ends inside the file.
    pub fn file_extent(&self, identifier: &str) -> (r: Result<(u64, u64), PkgError>)
        ensures
            locate_index(self.file_entries@, identifier@) < 0 ==> r == Err::<(u64, u64), PkgError>(
                PkgError::FileNotFound,
            ),
            locate_index(self.file_entries@, identifier@) >= 0 ==> {
                let e = self.file_entries@[locate_index(self.file_entries@, identifier@)].1;
                if e.offset + e.size > self.file_size {
                    r == Err::<(u64, u64), PkgError>(PkgError::FileOutOfBounds)
                } else {
                    r == Ok::<(u64, u64), PkgError>((e.offset, e.size))
                }
            },
    {
        let e = match self.locate_file(identifier) {
            Ok(e) => e,
            Err(err) => {
                return Err(err);
            },
        };
        if e.offset > self.file_size || self.file_size - e.offset < e.size {
            Err(PkgError::FileOutOfBounds)
        } else {
            Ok((e.offset, e.size))
        }
    }
}

proof fn lemma_find_name_first(s: Seq<(u32, FileEntry)>, name: Seq<char>, i: int)
    requires
        0 <= i < s.len(),
        s[i].1.name is Some && s[i].1.name->Some_0@ == name,
        find_name(s.subrange(0, i), name) == -1,
    ensures
        find_name(s, name) == i,
    decreases s.len(),
{
    if s.len() > i + 1 {
        assert(s.drop_last().subrange(0, i) =~= s.subrange(0, i));
        lemma_find_name_first(s.drop_last(), name, i);
    } else {
        assert(s.drop_last() =~= s.subrange(0, i));
    }
}

} // verus!
