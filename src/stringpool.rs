//! The string pool: the deduplicated table of strings that every other chunk
//! refers to by index.
use vstd::prelude::*;

use crate::bytes::{le16, le32, read_u16, read_u32};
use crate::ParseError;

verus! {

/// The index that stands for "no string".
pub const NO_INDEX: u32 = 0xFFFF_FFFF;

/// Bit of the pool's flags that selects UTF-8 entries (UTF-16 when clear).
pub const UTF8_FLAG: u32 = 0x100;

/// Size of the string pool chunk's header, up to the offset table.
pub const POOL_HEADER_SIZE: usize = 28;

/// The text that `String::from_utf8` decodes from `b`, or `None` where `b` is
/// not valid UTF-8.
pub uninterp spec fn utf8_text(b: Seq<u8>) -> Option<Seq<char>>;

/// The text that `String::from_utf16` decodes from `u`, or `None` where `u`
/// holds an unpaired surrogate.
pub uninterp spec fn utf16_text(u: Seq<u16>) -> Option<Seq<char>>;

/// Relies on `String::from_utf8`: it fails exactly on invalid UTF-8 and
/// otherwise returns the decoded text.
#[verifier::external_body]
fn decode_utf8(b: Vec<u8>) -> (r: Option<String>)
    ensures
        match r {
            Some(s) => utf8_text(b@) == Some(s@),
            None => utf8_text(b@) is None,
        },
{
    String::from_utf8(b).ok()
}

/// Relies on `String::from_utf16`: it fails exactly on unpaired surrogates and
/// otherwise returns the decoded text.
#[verifier::external_body]
fn decode_utf16(u: &[u16]) -> (r: Option<String>)
    ensures
        match r {
            Some(s) => utf16_text(u@) == Some(s@),
            None => utf16_text(u@) is None,
        },
{
    String::from_utf16(u).ok()
}

/// The views of a sequence of strings.
pub open spec fn strings_view(v: Seq<String>) -> Seq<Seq<char>> {
    v.map_values(|s: String| s@)
}

/// The `n` UTF-16 code units stored little-endian from `b[d]` on.
pub open spec fn units_at(b: Seq<u8>, d: int, n: nat) -> Seq<u16> {
    Seq::new(n, |j: int| le16(b, d + 2 * j))
}

/// Decoding of the UTF-8 pool entry at offset `d` of a chunk that ends at
/// `e`: a length byte that is not used, the byte length, then the bytes.
pub open spec fn utf8_entry_at(b: Seq<u8>, d: int, e: int) -> Result<Seq<char>, ParseError> {
    if d + 2 > e {
        Err(ParseError::TruncatedInput)
    } else {
        let n = b[d + 1] as int;
        if n >= 128 {
            Err(ParseError::UnsupportedFeature)
        } else if d + 2 + n > e {
            Err(ParseError::TruncatedInput)
        } else {
            match utf8_text(b.subrange(d + 2, d + 2 + n)) {
                Some(t) => Ok(t),
                None => Err(ParseError::InvalidEncoding),
            }
        }
    }
}

/// Decoding of the UTF-16 pool entry at offset `d` of a chunk that ends at
/// `e`: the number of code units, then the units.
pub open spec fn utf16_entry_at(b: Seq<u8>, d: int, e: int) -> Result<Seq<char>, ParseError> {
    if d + 2 > e {
        Err(ParseError::TruncatedInput)
    } else {
        let n = le16(b, d) as int;
        if n >= 32768 {
            Err(ParseError::UnsupportedFeature)
        } else if d + 2 + 2 * n > e {
            Err(ParseError::TruncatedInput)
        } else {
            match utf16_text(units_at(b, d + 2, n as nat)) {
                Some(t) => Ok(t),
                None => Err(ParseError::InvalidEncoding),
            }
        }
    }
}

/// Decoding of the pool entry at offset `d` of a chunk that ends at `e`.
pub open spec fn entry_at(b: Seq<u8>, d: int, e: int, utf8: bool) -> Result<Seq<char>, ParseError> {
    if utf8 {
        utf8_entry_at(b, d, e)
    } else {
        utf16_entry_at(b, d, e)
    }
}

/// The `n` offsets of the offset table of the pool chunk at `p`.
pub open spec fn offsets_at(b: Seq<u8>, p: int, n: nat) -> Seq<u32> {
    Seq::new(n, |k: int| le32(b, p + POOL_HEADER_SIZE + 4 * k))
}

/// Position of the entry whose offset stands `k`-th in the offset table of the
/// pool chunk at `p`, whose string data starts at `p + start`.
pub open spec fn entry_pos(b: Seq<u8>, p: int, start: u32, k: int) -> int {
    p + start + le32(b, p + POOL_HEADER_SIZE + 4 * k)
}

/// The first `n` entries of the pool chunk `b[p..e]`, or the first error among
/// them.
pub open spec fn entries(b: Seq<u8>, p: int, e: int, utf8: bool, start: u32, n: nat) -> Result<
    Seq<Seq<char>>,
    ParseError,
>
    decreases n,
{
    if n == 0 {
        Ok(Seq::empty())
    } else {
        match entries(b, p, e, utf8, start, (n - 1) as nat) {
            Err(x) => Err(x),
            Ok(s) => match entry_at(b, entry_pos(b, p, start, n - 1), e, utf8) {
                Err(x) => Err(x),
                Ok(t) => Ok(s.push(t)),
            },
        }
    }
}

/// Decoding of the string pool chunk `b[p..e]`. The string data may not
/// start inside the pool's header.
pub open spec fn pool_spec(b: Seq<u8>, p: int, e: int) -> Result<Seq<Seq<char>>, ParseError> {
    if e - p < POOL_HEADER_SIZE {
        Err(ParseError::TruncatedInput)
    } else {
        let count = le32(b, p + 8);
        let styles = le32(b, p + 12);
        let flags = le32(b, p + 16);
        let start = le32(b, p + 20);
        if styles != 0 {
            Err(ParseError::UnsupportedFeature)
        } else if p + POOL_HEADER_SIZE + 4 * count > e {
            Err(ParseError::TruncatedInput)
        } else if start < POOL_HEADER_SIZE {
            Err(ParseError::InvalidFormat)
        } else {
            entries(b, p, e, flags & UTF8_FLAG != 0, start, count as nat)
        }
    }
}

/// Once the first `i` entries fail, the first `n` fail the same way.
pub proof fn lemma_entries_error_stays(
    b: Seq<u8>,
    p: int,
    e: int,
    utf8: bool,
    start: u32,
    i: nat,
    n: nat,
)
    requires
        i <= n,
        entries(b, p, e, utf8, start, i) is Err,
    ensures
        entries(b, p, e, utf8, start, n) == entries(b, p, e, utf8, start, i),
    decreases n,
{
    if i < n {
        lemma_entries_error_stays(b, p, e, utf8, start, i, (n - 1) as nat);
    }
}

/// Looking up index `i` in a pool holding `s`: `Ok(None)` for the absent
/// index, the string where `i` is in bounds, and `StringNotFound` otherwise.
pub open spec fn lookup(s: Seq<Seq<char>>, i: u32) -> Result<Option<Seq<char>>, ParseError> {
    if i == NO_INDEX {
        Ok(None)
    } else if i < s.len() {
        Ok(Some(s[i as int]))
    } else {
        Err(ParseError::StringNotFound(i))
    }
}

proof fn lemma_entry_outside_flags(b1: Seq<u8>, b2: Seq<u8>, p: int, d: int, e: int, utf8: bool)
    requires
        0 <= p,
        p + POOL_HEADER_SIZE <= d,
        e <= b1.len(),
        b1.len() == b2.len(),
        forall|i: int| 0 <= i < b1.len() && !(p + 16 <= i < p + 20) ==> b1[i] == b2[i],
    ensures
        entry_at(b1, d, e, utf8) == entry_at(b2, d, e, utf8),
{
    if d + 2 <= e {
        assert(b1[d] == b2[d] && b1[d + 1] == b2[d + 1]);
        let n8 = b1[d + 1] as int;
        if d + 2 + n8 <= e {
            assert(b1.subrange(d + 2, d + 2 + n8) =~= b2.subrange(d + 2, d + 2 + n8));
        }
        let n16 = le16(b1, d) as int;
        if d + 2 + 2 * n16 <= e {
            assert forall|j: int| 0 <= j < n16 implies #[trigger] units_at(b1, d + 2, n16 as nat)[j] == units_at(
                b2,
                d + 2,
                n16 as nat,
            )[j] by {
                assert(b1[d + 2 + 2 * j] == b2[d + 2 + 2 * j]);
                assert(b1[d + 2 + 2 * j + 1] == b2[d + 2 + 2 * j + 1]);
            }
            assert(units_at(b1, d + 2, n16 as nat) =~= units_at(b2, d + 2, n16 as nat));
        }
    }
}

proof fn lemma_entries_outside_flags(
    b1: Seq<u8>,
    b2: Seq<u8>,
    p: int,
    e: int,
    utf8: bool,
    start: u32,
    n: nat,
)
    requires
        0 <= p,
        start >= POOL_HEADER_SIZE,
        p + POOL_HEADER_SIZE + 4 * n <= e <= b1.len(),
        b1.len() == b2.len(),
        forall|i: int| 0 <= i < b1.len() && !(p + 16 <= i < p + 20) ==> b1[i] == b2[i],
    ensures
        entries(b1, p, e, utf8, start, n) == entries(b2, p, e, utf8, start, n),
    decreases n,
{
    if n > 0 {
        lemma_entries_outside_flags(b1, b2, p, e, utf8, start, (n - 1) as nat);
        let q = p + POOL_HEADER_SIZE + 4 * (n - 1);
        assert(b1[q] == b2[q] && b1[q + 1] == b2[q + 1] && b1[q + 2] == b2[q + 2] && b1[q + 3] == b2[q + 3]);
        assert(entry_pos(b1, p, start, n - 1) == entry_pos(b2, p, start, n - 1));
        lemma_entry_outside_flags(b1, b2, p, entry_pos(b1, p, start, n - 1), e, utf8);
    }
}

/// Only the UTF-8 bit of the flags matters: two pools that differ in their
/// flags field alone, and agree on that bit, decode alike.
pub proof fn lemma_pool_ignores_other_flags(b1: Seq<u8>, b2: Seq<u8>, p: int, e: int)
    requires
        0 <= p <= e <= b1.len(),
        b1.len() == b2.len(),
        forall|i: int| 0 <= i < b1.len() && !(p + 16 <= i < p + 20) ==> b1[i] == b2[i],
        e - p >= POOL_HEADER_SIZE ==> le32(b1, p + 16) & UTF8_FLAG == le32(b2, p + 16) & UTF8_FLAG,
    ensures
        pool_spec(b1, p, e) == pool_spec(b2, p, e),
{
    if e - p >= POOL_HEADER_SIZE {
        assert forall|k: int| p + 8 <= k < p + 16 || p + 20 <= k < p + 24 implies b1[k] == b2[k] by {}
        let count = le32(b1, p + 8);
        let start = le32(b1, p + 20);
        assert(le32(b1, p + 8) == le32(b2, p + 8));
        assert(le32(b1, p + 12) == le32(b2, p + 12));
        assert(start == le32(b2, p + 20));
        if le32(b1, p + 12) == 0 && p + POOL_HEADER_SIZE + 4 * count <= e && start >= POOL_HEADER_SIZE {
            lemma_entries_outside_flags(b1, b2, p, e, le32(b1, p + 16) & UTF8_FLAG != 0, start, count as nat);
        }
    }
}

/// The absent index looks up as "no string" in every pool, never as
/// `StringNotFound`.
pub proof fn lemma_absent_index(s: Seq<Seq<char>>)
    ensures
        lookup(s, NO_INDEX) == Ok::<Option<Seq<char>>, ParseError>(None),
{
}

/// Looking up a string that must be present: the absent index fails too.
pub open spec fn lookup_required(s: Seq<Seq<char>>, i: u32) -> Result<Seq<char>, ParseError> {
    match lookup(s, i) {
        Ok(Some(t)) => Ok(t),
        Ok(None) => Err(ParseError::StringNotFound(i)),
        Err(x) => Err(x),
    }
}

/// Reads the `count` entries of the offset table of the pool chunk at `p`.
fn parse_offsets(b: &[u8], p: usize, count: u32) -> (r: Vec<u32>)
    requires
        p + POOL_HEADER_SIZE + 4 * count <= b.len(),
    ensures
        r@ == offsets_at(b@, p as int, count as nat),
{
    let mut offsets: Vec<u32> = Vec::new();
    let mut i: u32 = 0;
    while i < count
        invariant
            p + POOL_HEADER_SIZE + 4 * count <= b.len(),
            i <= count,
            offsets@ == offsets_at(b@, p as int, i as nat),
        decreases count - i,
    {
        offsets.push(read_u32(b, p + POOL_HEADER_SIZE + 4 * (i as usize)));
        i = i + 1;
        assert(offsets@ =~= offsets_at(b@, p as int, i as nat));
    }
    offsets
}

/// Decodes the UTF-16 pool entry at offset `d` of a chunk that ends at `e`.
fn parse_utf16_string(b: &[u8], d: usize, e: usize) -> (r: Result<String, ParseError>)
    requires
        d <= e <= b.len(),
    ensures
        match r {
            Ok(s) => utf16_entry_at(b@, d as int, e as int) == Ok::<Seq<char>, ParseError>(s@),
            Err(x) => utf16_entry_at(b@, d as int, e as int) == Err::<Seq<char>, ParseError>(x),
        },
{
    if e - d < 2 {
        return Err(ParseError::TruncatedInput);
    }
    let n = read_u16(b, d) as usize;
    if n >= 32768 {
        return Err(ParseError::UnsupportedFeature);
    }
    if (e - d - 2) / 2 < n {
        return Err(ParseError::TruncatedInput);
    }
    let mut u: Vec<u16> = Vec::new();
    let mut j: usize = 0;
    while j < n
        invariant
            d + 2 + 2 * n <= e <= b.len(),
            j <= n,
            u@ == units_at(b@, d + 2, j as nat),
        decreases n - j,
    {
        u.push(read_u16(b, d + 2 + 2 * j));
        j = j + 1;
        assert(u@ =~= units_at(b@, d + 2, j as nat));
    }
    match decode_utf16(u.as_slice()) {
        Some(s) => Ok(s),
        None => Err(ParseError::InvalidEncoding),
    }
}

/// Decodes the UTF-8 pool entry at offset `d` of a chunk that ends at `e`.
fn parse_utf8_string(b: &[u8], d: usize, e: usize) -> (r: Result<String, ParseError>)
    requires
        d <= e <= b.len(),
    ensures
        match r {
            Ok(s) => utf8_entry_at(b@, d as int, e as int) == Ok::<Seq<char>, ParseError>(s@),
            Err(x) => utf8_entry_at(b@, d as int, e as int) == Err::<Seq<char>, ParseError>(x),
        },
{
    if e - d < 2 {
        return Err(ParseError::TruncatedInput);
    }
    let n = b[d + 1] as usize;
    if n >= 128 {
        return Err(ParseError::UnsupportedFeature);
    }
    if e - d - 2 < n {
        return Err(ParseError::TruncatedInput);
    }
    let mut v: Vec<u8> = Vec::new();
    let mut j: usize = 0;
    while j < n
        invariant
            d + 2 + n <= e <= b.len(),
            j <= n,
            v@ == b@.subrange(d + 2, d + 2 + j),
        decreases n - j,
    {
        v.push(b[d + 2 + j]);
        j = j + 1;
        assert(v@ =~= b@.subrange(d + 2, d + 2 + j));
    }
    match decode_utf8(v) {
        Some(s) => Ok(s),
        None => Err(ParseError::InvalidEncoding),
    }
}

/// The decoded strings of one document.
pub struct StringPool {
    strings: Vec<String>,
}

impl StringPool {
    pub closed spec fn view(&self) -> Seq<Seq<char>> {
        strings_view(self.strings@)
    }

    /// Builds a pool that holds `strings`, in order.
    pub fn from_strings(strings: Vec<String>) -> (r: StringPool)
        ensures
            r@ == strings_view(strings@),
    {
        StringPool { strings }
    }

    /// Decodes the string pool chunk `b[p..e]`. Every count and offset is
    /// checked against the chunk before anything is allocated by it.
    pub fn read_strings(b: &[u8], p: usize, e: usize) -> (r: Result<StringPool, ParseError>)
        requires
            p <= e <= b.len(),
        ensures
            match r {
                Ok(pool) => pool_spec(b@, p as int, e as int) == Ok::<Seq<Seq<char>>, ParseError>(pool@),
                Err(x) => pool_spec(b@, p as int, e as int) == Err::<Seq<Seq<char>>, ParseError>(x),
            },
    {
        if e - p < POOL_HEADER_SIZE {
            return Err(ParseError::TruncatedInput);
        }
        let count = read_u32(b, p + 8);
        let styles = read_u32(b, p + 12);
        let flags = read_u32(b, p + 16);
        let start = read_u32(b, p + 20);
        if styles != 0 {
            return Err(ParseError::UnsupportedFeature);
        }
        let room = e - p - POOL_HEADER_SIZE;
        if room / 4 < count as usize {
            assert(p + POOL_HEADER_SIZE + 4 * count > e) by (nonlinear_arith)
                requires room / 4 < count as usize, room == e - p - POOL_HEADER_SIZE;
            return Err(ParseError::TruncatedInput);
        }
        assert(p + POOL_HEADER_SIZE + 4 * count <= e) by (nonlinear_arith)
            requires room / 4 >= count as usize, room == e - p - POOL_HEADER_SIZE;
        if (start as usize) < POOL_HEADER_SIZE {
            return Err(ParseError::InvalidFormat);
        }
        let utf8 = flags & UTF8_FLAG != 0;
        let offsets = parse_offsets(b, p, count);
        assert(pool_spec(b@, p as int, e as int) == entries(b@, p as int, e as int, utf8, start, count as nat));
        let mut strings: Vec<String> = Vec::new();
        let mut i: u32 = 0;
        assert(strings_view(strings@) =~= Seq::<Seq<char>>::empty());
        while i < count
            invariant
                p + POOL_HEADER_SIZE + 4 * count <= e <= b.len(),
                i <= count,
                utf8 == (flags & UTF8_FLAG != 0),
                offsets@ == offsets_at(b@, p as int, count as nat),
                pool_spec(b@, p as int, e as int) == entries(b@, p as int, e as int, utf8, start, count as nat),
                entries(b@, p as int, e as int, utf8, start, i as nat) == Ok::<Seq<Seq<char>>, ParseError>(
                    strings_view(strings@),
                ),
            decreases count - i,
        {
            let off = offsets[i as usize];
            let ghost d = entry_pos(b@, p as int, start, i as int);
            let ghost before = strings@;
            let limit = e - p;
            if (start as usize) > limit || (off as usize) > limit - (start as usize) {
                assert(d + 2 > e);
                assert(entries(b@, p as int, e as int, utf8, start, (i + 1) as nat) == Err::<Seq<Seq<char>>, ParseError>(ParseError::TruncatedInput));
                proof {
                    lemma_entries_error_stays(b@, p as int, e as int, utf8, start, (i + 1) as nat, count as nat);
                }
                return Err(ParseError::TruncatedInput);
            }
            let d_exec = p + start as usize + off as usize;
            let entry = if utf8 {
                parse_utf8_string(b, d_exec, e)
            } else {
                parse_utf16_string(b, d_exec, e)
            };
            match entry {
                Ok(s) => {
                    strings.push(s);
                },
                Err(x) => {
                    assert(entries(b@, p as int, e as int, utf8, start, (i + 1) as nat) == Err::<Seq<Seq<char>>, ParseError>(x));
                    proof {
                        lemma_entries_error_stays(b@, p as int, e as int, utf8, start, (i + 1) as nat, count as nat);
                    }
                    return Err(x);
                },
            }
            i = i + 1;
            assert(strings_view(strings@) =~= strings_view(before).push(strings@.last()@));
        }
        Ok(StringPool { strings })
    }

    /// Number of strings in the pool.
    pub fn len(&self) -> (r: usize)
        ensures
            r == self@.len(),
    {
        self.strings.len()
    }

    /// Looks up index `i`: `Ok(None)` for the absent index, never an error.
    pub fn get(&self, i: u32) -> (r: Result<Option<&String>, ParseError>)
        ensures
            match r {
                Ok(Some(s)) => lookup(self@, i) == Ok::<Option<Seq<char>>, ParseError>(Some(s@)),
                Ok(None) => lookup(self@, i) == Ok::<Option<Seq<char>>, ParseError>(None),
                Err(x) => lookup(self@, i) == Err::<Option<Seq<char>>, ParseError>(x),
            },
    {
        if i == NO_INDEX {
            Ok(None)
        } else if (i as usize) < self.strings.len() {
            Ok(Some(&self.strings[i as usize]))
        } else {
            Err(ParseError::StringNotFound(i))
        }
    }

    /// Looks up a string that must be present, and copies it.
    pub fn get_required(&self, i: u32) -> (r: Result<String, ParseError>)
        ensures
            match r {
                Ok(s) => lookup_required(self@, i) == Ok::<Seq<char>, ParseError>(s@),
                Err(x) => lookup_required(self@, i) == Err::<Seq<char>, ParseError>(x),
            },
    {
        match self.get(i) {
            Ok(Some(s)) => Ok(s.clone()),
            Ok(None) => Err(ParseError::StringNotFound(i)),
            Err(x) => Err(x),
        }
    }
}

} // verus!
