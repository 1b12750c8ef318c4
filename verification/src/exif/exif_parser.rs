//! Reading a TIFF/EXIF block from raw bytes.
//!
//! The block starts with an 8-byte header: a big-endian byte-order mark
//! ("II" or "MM"), a 16-bit version and the 32-bit offset of the first IFD,
//! both in the announced byte order. Each IFD holds a 16-bit entry count,
//! that many 12-byte fields and the 32-bit offset of the next IFD; an offset
//! of 0 ends the chain. Every offset counts from the start of the block.
//!
//! The spec functions below say what each reader returns; failures carry the
//! kind of error and the position in the block at which it was met.
use vstd::prelude::*;

use crate::exif::{
    spec_endian_byte, Endianness, ExifData, ExifDataView, ExifField, ExifHeader, ExifIFD,
    ExifIFDView, BE_VALUE, LE_VALUE,
};

verus! {

/// Why a read failed.
#[derive(Debug, Clone, Copy, PartialEq, Eq, Structural)]
pub enum ErrorKind {
    /// The input ended before a value could be read.
    Eof,
    /// The byte-order mark is neither "II" nor "MM".
    Verify,
}

/// A failed read: its kind, and the position in the block of the input that
/// was left when it failed.
#[derive(Debug, Clone, Copy, PartialEq, Eq, Structural)]
pub struct ExifParseError {
    pub kind: ErrorKind,
    pub offset: usize,
}

/// An end-of-input failure at position `at`.
pub open spec fn eof(at: int) -> ExifParseError {
    ExifParseError { kind: ErrorKind::Eof, offset: at as usize }
}

/// The 16-bit integer stored at `s[at..at + 2]` in byte order `e`.
pub open spec fn spec_u16(s: Seq<u8>, at: int, e: Endianness) -> u16 {
    match e {
        Endianness::Big => (s[at] as int * 256 + s[at + 1] as int) as u16,
        Endianness::Little => (s[at + 1] as int * 256 + s[at] as int) as u16,
    }
}

/// The 32-bit integer stored at `s[at..at + 4]` in byte order `e`.
pub open spec fn spec_u32(s: Seq<u8>, at: int, e: Endianness) -> u32 {
    match e {
        Endianness::Big => (s[at] as int * 16777216 + s[at + 1] as int * 65536 + s[at + 2] as int
            * 256 + s[at + 3] as int) as u32,
        Endianness::Little => (s[at + 3] as int * 16777216 + s[at + 2] as int * 65536 + s[at
            + 1] as int * 256 + s[at] as int) as u32,
    }
}

/// The header at the start of `raw`.
pub open spec fn spec_parse_header(raw: Seq<u8>) -> Result<ExifHeader, ExifParseError> {
    if raw.len() < 2 {
        Err(eof(0))
    } else {
        let mark = spec_u16(raw, 0, Endianness::Big);
        match spec_endian_byte(mark) {
            None => Err(ExifParseError { kind: ErrorKind::Verify, offset: 0 }),
            Some(e) => if raw.len() < 4 {
                Err(eof(2))
            } else if raw.len() < 8 {
                Err(eof(4))
            } else {
                Ok(
                    ExifHeader {
                        byte_order: mark,
                        version: spec_u16(raw, 2, e),
                        ifd_offset: spec_u32(raw, 4, e),
                    },
                )
            },
        }
    }
}

/// The field stored at `raw[at..at + 12]`.
pub open spec fn spec_parse_field(raw: Seq<u8>, at: int, e: Endianness) -> Result<
    ExifField,
    ExifParseError,
> {
    if raw.len() < at + 2 {
        Err(eof(at))
    } else if raw.len() < at + 4 {
        Err(eof(at + 2))
    } else if raw.len() < at + 8 {
        Err(eof(at + 4))
    } else if raw.len() < at + 12 {
        Err(eof(at + 8))
    } else {
        Ok(
            ExifField {
                tag: spec_u16(raw, at, e),
                etype: spec_u16(raw, at + 2, e),
                length: spec_u32(raw, at + 4, e),
                value: spec_u32(raw, at + 8, e),
            },
        )
    }
}

/// The `n` fields stored one after another from `at`; the first that cannot
/// be read gives the failure.
pub open spec fn spec_parse_fields(raw: Seq<u8>, at: int, e: Endianness, n: nat) -> Result<
    Seq<ExifField>,
    ExifParseError,
>
    decreases n,
{
    if n == 0 {
        Ok(Seq::empty())
    } else {
        match spec_parse_fields(raw, at, e, (n - 1) as nat) {
            Err(f) => Err(f),
            Ok(fs) => match spec_parse_field(raw, at + 12 * (n - 1), e) {
                Err(f) => Err(f),
                Ok(fd) => Ok(fs.push(fd)),
            },
        }
    }
}

/// The IFD stored at `at`.
pub open spec fn spec_parse_ifd(raw: Seq<u8>, at: int, e: Endianness) -> Result<
    ExifIFDView,
    ExifParseError,
> {
    if raw.len() < at + 2 {
        Err(eof(at))
    } else {
        let count = spec_u16(raw, at, e);
        match spec_parse_fields(raw, at + 2, e, count as nat) {
            Err(f) => Err(f),
            Ok(fs) => {
                let p = at + 2 + 12 * count;
                if raw.len() < p + 4 {
                    Err(eof(p))
                } else {
                    Ok(ExifIFDView { entry_count: count, entries: fs, offset: spec_u32(raw, p, e) })
                }
            },
        }
    }
}

/// The chain of IFDs that starts at `off`, followed for at most `fuel` IFDs:
/// the IFDs read, and the failure that stopped the chain if one did.
/// `None` where the chain is longer than `fuel` or an offset lies past the
/// end of `raw`.
pub open spec fn spec_ifd_walk(raw: Seq<u8>, e: Endianness, off: int, fuel: nat) -> Option<
    (Seq<ExifIFDView>, Option<ExifParseError>),
>
    decreases fuel,
{
    if off == 0 {
        Some((Seq::empty(), None))
    } else if fuel == 0 || off > raw.len() {
        None
    } else {
        match spec_parse_ifd(raw, off, e) {
            Err(f) => Some((Seq::empty(), Some(f))),
            Ok(ifd) => match spec_ifd_walk(raw, e, ifd.offset as int, (fuel - 1) as nat) {
                None => None,
                Some((rest, err)) => Some((seq![ifd] + rest, err)),
            },
        }
    }
}

/// The chain of IFDs from `off` ends: by an offset of 0 or by a failure,
/// with every offset on the way inside `raw`.
pub open spec fn ifd_walk_ends(raw: Seq<u8>, e: Endianness, off: int) -> bool {
    exists|fuel: nat| spec_ifd_walk(raw, e, off, fuel) is Some
}

/// The chain of IFDs from `off`, where it ends.
pub open spec fn ifd_walk(raw: Seq<u8>, e: Endianness, off: int) -> (
    Seq<ExifIFDView>,
    Option<ExifParseError>,
) {
    spec_ifd_walk(raw, e, off, choose|fuel: nat| spec_ifd_walk(raw, e, off, fuel) is Some)->0
}

/// The bytes that a sequence of IFDs accounts for: per IFD, 12 per field
/// and 6 for the count and the next offset.
pub open spec fn ifds_size(ifds: Seq<ExifIFDView>) -> nat
    decreases ifds.len(),
{
    if ifds.len() == 0 {
        0
    } else {
        ifds_size(ifds.drop_last()) + ifds.last().entries.len() * 12 + 6
    }
}

/// `parse_from_raw` returns on `raw`: the header cannot be read, or the
/// chain of IFDs ends and the size it accounts for fits in a `usize`.
pub open spec fn parse_from_raw_ends(raw: Seq<u8>) -> bool {
    match spec_parse_header(raw) {
        Err(_) => true,
        Ok(h) => {
            &&& ifd_walk_ends(raw, h.spec_endianness(), h.ifd_offset as int)
            &&& 10 + ifds_size(ifd_walk(raw, h.spec_endianness(), h.ifd_offset as int).0)
                <= usize::MAX
        },
    }
}

/// The block read from `raw`: the number of bytes of the header, and the
/// data; or the first failure met.
pub open spec fn spec_parse_from_raw(raw: Seq<u8>) -> Result<(int, ExifDataView), ExifParseError> {
    match spec_parse_header(raw) {
        Err(f) => Err(f),
        Ok(h) => {
            let e = h.spec_endianness();
            let w = ifd_walk(raw, e, h.ifd_offset as int);
            match w.1 {
                Some(f) => Err(f),
                None => Ok(
                    (
                        8,
                        ExifDataView {
                            size: (10 + ifds_size(w.0)) as usize,
                            endian: e,
                            header: h,
                            ifds: w.0,
                        },
                    ),
                ),
            }
        },
    }
}

/// The size of a concatenation is the sum of the sizes.
pub proof fn lemma_ifds_size_concat(a: Seq<ExifIFDView>, b: Seq<ExifIFDView>)
    ensures
        ifds_size(a + b) == ifds_size(a) + ifds_size(b),
    decreases b.len(),
{
    if b.len() == 0 {
        assert(a + b =~= a);
    } else {
        lemma_ifds_size_concat(a, b.drop_last());
        assert((a + b).drop_last() =~= a + b.drop_last());
    }
}

/// Once the fields from `at` fail at the `n`-th, every longer run fails the
/// same way.
pub proof fn lemma_fields_failure_persists(
    raw: Seq<u8>,
    at: int,
    e: Endianness,
    n: nat,
    m: nat,
)
    requires
        n <= m,
        spec_parse_fields(raw, at, e, n) is Err,
    ensures
        spec_parse_fields(raw, at, e, m) == spec_parse_fields(raw, at, e, n),
    decreases m - n,
{
    if n < m {
        lemma_fields_failure_persists(raw, at, e, n, (m - 1) as nat);
    }
}

/// The fields read, where they are, are as many as asked for.
pub proof fn lemma_fields_len(raw: Seq<u8>, at: int, e: Endianness, n: nat)
    ensures
        spec_parse_fields(raw, at, e, n) matches Ok(fs) ==> fs.len() == n,
    decreases n,
{
    if n > 0 {
        lemma_fields_len(raw, at, e, (n - 1) as nat);
    }
}

/// Reads the 16-bit integer at `raw[at..at + 2]`.
fn read_u16_at(raw: &[u8], at: usize, e: Endianness) -> (v: u16)
    requires
        at + 2 <= raw@.len(),
    ensures
        v == spec_u16(raw@, at as int, e),
{
    let b0 = raw[at] as u16;
    let b1 = raw[at + 1] as u16;
    match e {
        Endianness::Big => b0 * 256 + b1,
        Endianness::Little => b1 * 256 + b0,
    }
}

/// Reads the 32-bit integer at `raw[at..at + 4]`.
fn read_u32_at(raw: &[u8], at: usize, e: Endianness) -> (v: u32)
    requires
        at + 4 <= raw@.len(),
    ensures
        v == spec_u32(raw@, at as int, e),
{
    let b0 = raw[at] as u32;
    let b1 = raw[at + 1] as u32;
    let b2 = raw[at + 2] as u32;
    let b3 = raw[at + 3] as u32;
    match e {
        Endianness::Big => b0 * 16777216 + b1 * 65536 + b2 * 256 + b3,
        Endianness::Little => b3 * 16777216 + b2 * 65536 + b1 * 256 + b0,
    }
}

impl ExifHeader {
    /// The bytes that the header accounts for in [`ExifData::size`].
    pub const TOTAL_SIZE: usize = 10;

    /// Reads the header at the start of `input` and returns what follows it.
    pub fn parse_header(input: &[u8]) -> (r: Result<(&[u8], ExifHeader), ExifParseError>)
        ensures
            match spec_parse_header(input@) {
                Ok(h) => r matches Ok((rest, hd)) && hd == h && rest@ == input@.skip(8),
                Err(f) => r == Err::<(&[u8], ExifHeader), ExifParseError>(f),
            },
    {
        if input.len() < 2 {
            return Err(ExifParseError { kind: ErrorKind::Eof, offset: 0 });
        }
        let byte_order = read_u16_at(input, 0, Endianness::Big);
        if !(byte_order == LE_VALUE || byte_order == BE_VALUE) {
            return Err(ExifParseError { kind: ErrorKind::Verify, offset: 0 });
        }
        let endian = if byte_order == LE_VALUE {
            Endianness::Little
        } else {
            Endianness::Big
        };
        if input.len() < 4 {
            return Err(ExifParseError { kind: ErrorKind::Eof, offset: 2 });
        }
        let version = read_u16_at(input, 2, endian);
        if input.len() < 8 {
            return Err(ExifParseError { kind: ErrorKind::Eof, offset: 4 });
        }
        let ifd_offset = read_u32_at(input, 4, endian);
        let rest = vstd::slice::slice_subrange(input, 8, input.len());
        assert(rest@ =~= input@.skip(8));
        Ok((rest, ExifHeader { byte_order, version, ifd_offset }))
    }

    /// The byte order that the header's mark announces.
    pub fn endianness(&self) -> (e: Endianness)
        requires
            self.wf(),
        ensures
            e == self.spec_endianness(),
    {
        if self.byte_order == LE_VALUE {
            Endianness::Little
        } else {
            Endianness::Big
        }
    }
}

impl ExifField {
    /// The bytes that one field takes.
    pub const TOTAL_SIZE: usize = 12;

    /// Reads the field stored at `raw_data[at..at + 12]`.
    pub fn parse_field(raw_data: &[u8], at: usize, endian: &Endianness) -> (r: Result<
        ExifField,
        ExifParseError,
    >)
        requires
            at <= raw_data@.len(),
        ensures
            r == spec_parse_field(raw_data@, at as int, *endian),
    {
        let e = *endian;
        if raw_data.len() - at < 2 {
            return Err(ExifParseError { kind: ErrorKind::Eof, offset: at });
        }
        let tag = read_u16_at(raw_data, at, e);
        if raw_data.len() - at < 4 {
            return Err(ExifParseError { kind: ErrorKind::Eof, offset: at + 2 });
        }
        let etype = read_u16_at(raw_data, at + 2, e);
        if raw_data.len() - at < 8 {
            return Err(ExifParseError { kind: ErrorKind::Eof, offset: at + 4 });
        }
        let length = read_u32_at(raw_data, at + 4, e);
        if raw_data.len() - at < 12 {
            return Err(ExifParseError { kind: ErrorKind::Eof, offset: at + 8 });
        }
        let value = read_u32_at(raw_data, at + 8, e);
        Ok(ExifField { tag, etype, length, value })
    }
}

impl ExifIFD {
    /// Reads the IFD stored at `raw_data[at..]`: its count, its fields and
    /// the offset of the next IFD.
    pub fn parse_ifd(raw_data: &[u8], at: usize, endian: &Endianness) -> (r: Result<
        ExifIFD,
        ExifParseError,
    >)
        requires
            at <= raw_data@.len(),
        ensures
            match spec_parse_ifd(raw_data@, at as int, *endian) {
                Ok(v) => r matches Ok(ifd) && ifd@ == v,
                Err(f) => r matches Err(g) && g == f,
            },
    {
        let e = *endian;
        if raw_data.len() - at < 2 {
            return Err(ExifParseError { kind: ErrorKind::Eof, offset: at });
        }
        let entry_count = read_u16_at(raw_data, at, e);
        let mut entries: Vec<ExifField> = Vec::new();
        let mut i: u16 = 0;
        let mut pos: usize = at + 2;
        let len = raw_data.len();
        while i < entry_count
            invariant
                len == raw_data@.len(),
                e == *endian,
                at + 2 <= raw_data@.len(),
                entry_count == spec_u16(raw_data@, at as int, e),
                i <= entry_count,
                pos == at + 2 + 12 * i,
                pos <= raw_data@.len(),
                spec_parse_fields(raw_data@, at + 2, e, i as nat) == Ok::<
                    Seq<ExifField>,
                    ExifParseError,
                >(entries@),
            decreases entry_count - i,
        {
            match ExifField::parse_field(raw_data, pos, &e) {
                Err(f) => {
                    proof {
                        assert(spec_parse_fields(raw_data@, at + 2, e, (i + 1) as nat) == Err::<
                            Seq<ExifField>,
                            ExifParseError,
                        >(f));
                        lemma_fields_failure_persists(
                            raw_data@,
                            at + 2,
                            e,
                            (i + 1) as nat,
                            entry_count as nat,
                        );
                    }
                    return Err(f);
                },
                Ok(fd) => {
                    assert(pos + 12 <= len);
                    entries.push(fd);
                    pos = pos + 12;
                    i = i + 1;
                },
            }
        }
        if raw_data.len() - pos < 4 {
            return Err(ExifParseError { kind: ErrorKind::Eof, offset: pos });
        }
        let offset = read_u32_at(raw_data, pos, e);
        Ok(ExifIFD { entry_count, entries, offset })
    }
}

impl ExifData {
    /// Reads the header at the start of `raw_data`, then the chain of IFDs
    /// that it points to; returns what follows the header, and the data.
    pub fn parse_from_raw(raw_data: &[u8]) -> (r: Result<(&[u8], ExifData), ExifParseError>)
        requires
            parse_from_raw_ends(raw_data@),
        ensures
            match spec_parse_from_raw(raw_data@) {
                Ok((n, d)) => r matches Ok((rest, data)) && rest@ == raw_data@.skip(n) && data@
                    == d,
                Err(f) => r matches Err(g) && g == f,
            },
    {
        let (input, header) = match ExifHeader::parse_header(raw_data) {
            Ok(p) => p,
            Err(f) => {
                return Err(f);
            },
        };
        let endian = header.endianness();
        let ghost start = header.ifd_offset as int;
        let ghost fuel0 = choose|fuel: nat| spec_ifd_walk(raw_data@, endian, start, fuel) is Some;
        let ghost whole = ifd_walk(raw_data@, endian, start);
        let ghost mut fuel: nat = fuel0;
        let mut next_ifd: usize = header.ifd_offset as usize;
        let mut ifds: Vec<ExifIFD> = Vec::new();
        let mut size: usize = ExifHeader::TOTAL_SIZE;
        assert(ifds@.map_values(|i: ExifIFD| i@) + whole.0 =~= whole.0);
        while next_ifd != 0
            invariant
                start == header.ifd_offset as int,
                endian == header.spec_endianness(),
                spec_parse_header(raw_data@) == Ok::<ExifHeader, ExifParseError>(header),
                whole == ifd_walk(raw_data@, endian, start),
                spec_ifd_walk(raw_data@, endian, next_ifd as int, fuel) is Some,
                whole.0 == ifds@.map_values(|i: ExifIFD| i@) + (spec_ifd_walk(
                    raw_data@,
                    endian,
                    next_ifd as int,
                    fuel,
                )->0).0,
                whole.1 == (spec_ifd_walk(raw_data@, endian, next_ifd as int, fuel)->0).1,
                size == 10 + ifds_size(ifds@.map_values(|i: ExifIFD| i@)),
                10 + ifds_size(whole.0) <= usize::MAX,
            decreases fuel,
        {
            let ghost prefix = ifds@.map_values(|i: ExifIFD| i@);
            let ifd = match ExifIFD::parse_ifd(raw_data, next_ifd, &endian) {
                Ok(i) => i,
                Err(f) => {
                    assert(spec_ifd_walk(raw_data@, endian, next_ifd as int, fuel) == Some::<
                        (Seq<ExifIFDView>, Option<ExifParseError>),
                    >((Seq::empty(), Some(f))));
                    assert(whole.1 == Some(f));
                    return Err(f);
                },
            };
            let ghost rest = spec_ifd_walk(raw_data@, endian, ifd.offset as int, (fuel - 1) as nat)->0;
            proof {
                assert(whole.0 =~= prefix.push(ifd@) + rest.0);
                lemma_ifds_size_concat(prefix.push(ifd@), rest.0);
                assert(prefix.push(ifd@).drop_last() =~= prefix);
            }
            next_ifd = ifd.offset as usize;
            size = size + ifd.entries.len() * ExifField::TOTAL_SIZE + 2 + 4;
            ifds.push(ifd);
            proof {
                assert(ifds@.map_values(|i: ExifIFD| i@) =~= prefix.push(ifd@));
                fuel = (fuel - 1) as nat;
            }
        }
        assert(ifds@.map_values(|i: ExifIFD| i@) =~= whole.0);
        Ok((input, ExifData { size, endian, header, ifds }))
    }
}

/// The walk `w` of a chain, after the IFDs `prefix`.
pub open spec fn after_ifds(
    prefix: Seq<ExifIFDView>,
    w: Option<(Seq<ExifIFDView>, Option<ExifParseError>)>,
) -> Option<(Seq<ExifIFDView>, Option<ExifParseError>)> {
    match w {
        Some((rest, err)) => Some((prefix + rest, err)),
        None => None,
    }
}

/// A walk that ends gives the same result with any fuel that lets it end.
pub proof fn lemma_walk_fuel_irrelevant(raw: Seq<u8>, e: Endianness, off: int, f1: nat, f2: nat)
    requires
        spec_ifd_walk(raw, e, off, f1) is Some,
        spec_ifd_walk(raw, e, off, f2) is Some,
    ensures
        spec_ifd_walk(raw, e, off, f1) == spec_ifd_walk(raw, e, off, f2),
    decreases f1,
{
    if off != 0 {
        if let Ok(ifd) = spec_parse_ifd(raw, off, e) {
            lemma_walk_fuel_irrelevant(
                raw,
                e,
                ifd.offset as int,
                (f1 - 1) as nat,
                (f2 - 1) as nat,
            );
        }
    }
}

/// A walk that ends with some fuel is the chain's walk.
pub proof fn lemma_walk_is_chain(raw: Seq<u8>, e: Endianness, off: int, f: nat)
    requires
        spec_ifd_walk(raw, e, off, f) is Some,
    ensures
        ifd_walk_ends(raw, e, off),
        ifd_walk(raw, e, off) == spec_ifd_walk(raw, e, off, f)->0,
{
    let g = choose|fuel: nat| spec_ifd_walk(raw, e, off, fuel) is Some;
    lemma_walk_fuel_irrelevant(raw, e, off, f, g);
}

/// `offs` is a stretch of the chain: every offset but the last is not 0,
/// lies inside `raw`, holds an IFD, and that IFD points to the next offset.
#[verifier::opaque]
pub open spec fn chain_path(raw: Seq<u8>, e: Endianness, offs: Seq<int>) -> bool {
    forall|i: int|
        0 <= i < offs.len() - 1 ==> {
            &&& 1 <= #[trigger] offs[i] <= raw.len()
            &&& spec_parse_ifd(raw, offs[i], e) is Ok
            &&& spec_parse_ifd(raw, offs[i], e)->Ok_0.offset as int == offs[i + 1]
        }
}

/// A walk that ends from a point of a stretch of the chain ends from every
/// later point, with `k` less fuel `k` points later.
proof fn lemma_follow(raw: Seq<u8>, e: Endianness, offs: Seq<int>, j: int, k: int, g: nat)
    requires
        chain_path(raw, e, offs),
        0 <= j,
        0 <= k,
        j + k < offs.len(),
        spec_ifd_walk(raw, e, offs[j], g) is Some,
    ensures
        g >= k,
        spec_ifd_walk(raw, e, offs[j + k], (g - k) as nat) is Some,
    decreases k,
{
    reveal(chain_path);
    if k > 0 {
        lemma_follow(raw, e, offs, j, k - 1, g);
        let i = j + k - 1;
        assert(1 <= offs[i] <= raw.len());
    }
}

/// A stretch of the chain that comes back to an offset is a cycle: no walk
/// from that offset ends.
proof fn lemma_cycle_never_ends(raw: Seq<u8>, e: Endianness, offs: Seq<int>, a: int, b: int, g: nat)
    requires
        chain_path(raw, e, offs),
        0 <= a < b < offs.len(),
        offs[a] == offs[b],
    ensures
        spec_ifd_walk(raw, e, offs[a], g) is None,
    decreases g,
{
    if spec_ifd_walk(raw, e, offs[a], g) is Some {
        lemma_follow(raw, e, offs, a, b - a, g);
        lemma_cycle_never_ends(raw, e, offs, a, b, (g - (b - a)) as nat);
    }
}

/// `n + 1` integers from 1 to `n` are not all different.
proof fn lemma_pigeonhole(s: Seq<int>, n: int)
    requires
        0 <= n,
        s.len() == n + 1,
        forall|i: int| 0 <= i < s.len() ==> 1 <= #[trigger] s[i] <= n,
    ensures
        exists|a: int, b: int| 0 <= a < b < s.len() && s[a] == s[b],
{
    if !(exists|a: int, b: int| 0 <= a < b < s.len() && s[a] == s[b]) {
        assert(s.no_duplicates()) by {
            assert forall|i: int, j: int|
                0 <= i < s.len() && 0 <= j < s.len() && i != j implies s[i] != s[j] by {
                if i < j {
                    assert(!(s[i] == s[j]));
                } else {
                    assert(!(s[j] == s[i]));
                }
            }
        }
        s.unique_seq_to_set();
        vstd::set_lib::lemma_int_range(1, n + 1);
        assert(s.to_set().subset_of(vstd::set_lib::set_int_range(1, n + 1))) by {
            assert forall|x: int| s.to_set().contains(x) implies vstd::set_lib::set_int_range(
                1,
                n + 1,
            ).contains(x) by {
                let i = choose|i: int| 0 <= i < s.len() && s[i] == x;
                assert(1 <= s[i] <= n);
            }
        }
        vstd::set_lib::lemma_len_subset(s.to_set(), vstd::set_lib::set_int_range(1, n + 1));
    }
}

impl ExifData {
    /// Whether [`ExifData::parse_from_raw`] returns on `raw_data`: the
    /// header cannot be read, or the chain of IFDs ends, by an offset of 0
    /// or by a failure, with every offset on the way inside the block, and
    /// the size it accounts for fits in a `usize`. A chain that ends does so
    /// within `raw_data.len()` IFDs, which bounds the search.
    pub fn parse_from_raw_returns(raw_data: &[u8]) -> (b: bool)
        ensures
            b == parse_from_raw_ends(raw_data@),
    {
        let header = match ExifHeader::parse_header(raw_data) {
            Ok((_, h)) => h,
            Err(_) => {
                return true;
            },
        };
        let endian = header.endianness();
        let ghost raw = raw_data@;
        let ghost start = header.ifd_offset as int;
        let ghost mut prefix: Seq<ExifIFDView> = Seq::empty();
        let ghost mut offs: Seq<int> = Seq::empty();
        let mut next_ifd: usize = header.ifd_offset as usize;
        let mut steps: usize = 0;
        let mut size: usize = ExifHeader::TOTAL_SIZE;
        proof {
            lemma_walk_prefix_start(raw, endian, start);
            lemma_chain_path_one(raw, endian, start);
            assert(offs.push(next_ifd as int) =~= seq![start]);
        }
        while next_ifd != 0
            invariant
                raw == raw_data@,
                start == header.ifd_offset as int,
                endian == header.spec_endianness(),
                spec_parse_header(raw) == Ok::<ExifHeader, ExifParseError>(header),
                steps <= raw.len(),
                walk_after(raw, endian, start, prefix, next_ifd as int, steps as nat),
                size == 10 + ifds_size(prefix),
                offs.len() == steps,
                chain_path(raw, endian, offs.push(next_ifd as int)),
                offs.push(next_ifd as int)[0] == start,
            decreases raw.len() - steps,
        {
            if steps >= raw_data.len() || next_ifd > raw_data.len() {
                proof {
                    lemma_stop_never_ends(raw, endian, start, offs, next_ifd as int);
                }
                return false;
            }
            match ExifIFD::parse_ifd(raw_data, next_ifd, &endian) {
                Err(f) => {
                    proof {
                        lemma_failure_ends(raw, endian, start, prefix, next_ifd as int, steps as nat);
                    }
                    return true;
                },
                Ok(ifd) => {
                    proof {
                        lemma_fields_len(raw, next_ifd + 2, endian, ifd.entry_count as nat);
                    }
                    let add = ifd.entries.len() * ExifField::TOTAL_SIZE + 2 + 4;
                    let new_size = match size.checked_add(add) {
                        Some(n) => n,
                        None => {
                            proof {
                                lemma_overflow_never_ends(
                                    raw,
                                    endian,
                                    start,
                                    offs,
                                    prefix,
                                    next_ifd as int,
                                    steps as nat,
                                );
                            }
                            return false;
                        },
                    };
                    proof {
                        lemma_walk_step(raw, endian, start, prefix, next_ifd as int, steps as nat);
                        lemma_chain_path_extend(raw, endian, offs, next_ifd as int);
                        assert(prefix.push(ifd@).drop_last() =~= prefix);
                        assert(offs.push(next_ifd as int).push(ifd.offset as int)[0]
                            == offs.push(next_ifd as int)[0]);
                        prefix = prefix.push(ifd@);
                        offs = offs.push(next_ifd as int);
                    }
                    next_ifd = ifd.offset as usize;
                    steps = steps + 1;
                    size = new_size;
                },
            }
        }
        proof {
            lemma_zero_ends(raw, endian, start, prefix, steps as nat);
        }
        true
    }
}

/// Past the IFDs `prefix`, read in `steps` steps from `start`, the chain
/// goes on from `next`: every walk from `start` with at least `steps` fuel
/// is `prefix` followed by the walk from `next` with the fuel left.
pub open spec fn walk_after(
    raw: Seq<u8>,
    e: Endianness,
    start: int,
    prefix: Seq<ExifIFDView>,
    next: int,
    steps: nat,
) -> bool {
    forall|f: nat|
        f >= steps ==> #[trigger] spec_ifd_walk(raw, e, start, f) == after_ifds(
            prefix,
            spec_ifd_walk(raw, e, next, (f - steps) as nat),
        )
}

proof fn lemma_walk_prefix_start(raw: Seq<u8>, e: Endianness, start: int)
    ensures
        walk_after(raw, e, start, Seq::empty(), start, 0),
{
    assert forall|f: nat| f >= 0 implies #[trigger] spec_ifd_walk(raw, e, start, f) == after_ifds(
        Seq::empty(),
        spec_ifd_walk(raw, e, start, (f - 0) as nat),
    ) by {
        if let Some((r, er)) = spec_ifd_walk(raw, e, start, f) {
            assert(Seq::<ExifIFDView>::empty() + r =~= r);
        }
    }
}

proof fn lemma_walk_step(
    raw: Seq<u8>,
    e: Endianness,
    start: int,
    prefix: Seq<ExifIFDView>,
    next: int,
    steps: nat,
)
    requires
        walk_after(raw, e, start, prefix, next, steps),
        next != 0,
        next <= raw.len(),
        spec_parse_ifd(raw, next, e) is Ok,
    ensures
        walk_after(
            raw,
            e,
            start,
            prefix.push(spec_parse_ifd(raw, next, e)->Ok_0),
            spec_parse_ifd(raw, next, e)->Ok_0.offset as int,
            steps + 1,
        ),
{
    let ifd = spec_parse_ifd(raw, next, e)->Ok_0;
    let p2 = prefix.push(ifd);
    assert forall|f: nat| f >= steps + 1 implies #[trigger] spec_ifd_walk(raw, e, start, f)
        == after_ifds(p2, spec_ifd_walk(raw, e, ifd.offset as int, (f - (steps + 1)) as nat)) by {
        let g = (f - steps) as nat;
        assert(spec_ifd_walk(raw, e, start, f) == after_ifds(
            prefix,
            spec_ifd_walk(raw, e, next, g),
        ));
        if let Some((r, er)) = spec_ifd_walk(raw, e, ifd.offset as int, (g - 1) as nat) {
            assert(prefix + (seq![ifd] + r) =~= p2 + r);
        }
    }
}

proof fn lemma_chain_path_extend(raw: Seq<u8>, e: Endianness, offs: Seq<int>, next: int)
    requires
        chain_path(raw, e, offs.push(next)),
        1 <= next <= raw.len(),
        spec_parse_ifd(raw, next, e) is Ok,
    ensures
        chain_path(raw, e, offs.push(next).push(spec_parse_ifd(raw, next, e)->Ok_0.offset as int)),
{
    reveal(chain_path);
    let old_ext = offs.push(next);
    let ext = old_ext.push(spec_parse_ifd(raw, next, e)->Ok_0.offset as int);
    assert forall|i: int| 0 <= i < ext.len() - 1 implies {
        &&& 1 <= #[trigger] ext[i] <= raw.len()
        &&& spec_parse_ifd(raw, ext[i], e) is Ok
        &&& spec_parse_ifd(raw, ext[i], e)->Ok_0.offset as int == ext[i + 1]
    } by {
        if i < ext.len() - 2 {
            assert(ext[i] == old_ext[i]);
            assert(ext[i + 1] == old_ext[i + 1]);
        } else {
            assert(ext[i] == next);
        }
    }
}

/// A chain that reaches an offset of 0 ends, with the IFDs read.
proof fn lemma_zero_ends(
    raw: Seq<u8>,
    e: Endianness,
    start: int,
    prefix: Seq<ExifIFDView>,
    steps: nat,
)
    requires
        walk_after(raw, e, start, prefix, 0, steps),
    ensures
        ifd_walk_ends(raw, e, start),
        ifd_walk(raw, e, start) == (prefix, None::<ExifParseError>),
{
    assert(spec_ifd_walk(raw, e, start, steps) == after_ifds(prefix, spec_ifd_walk(raw, e, 0, 0)));
    assert(prefix + Seq::<ExifIFDView>::empty() =~= prefix);
    lemma_walk_is_chain(raw, e, start, steps);
}

/// A chain that meets an IFD it cannot read ends there.
proof fn lemma_failure_ends(
    raw: Seq<u8>,
    e: Endianness,
    start: int,
    prefix: Seq<ExifIFDView>,
    next: int,
    steps: nat,
)
    requires
        walk_after(raw, e, start, prefix, next, steps),
        next != 0,
        next <= raw.len(),
        spec_parse_ifd(raw, next, e) is Err,
    ensures
        ifd_walk_ends(raw, e, start),
        ifd_walk(raw, e, start).0 == prefix,
{
    assert(spec_ifd_walk(raw, e, start, steps + 1) == after_ifds(
        prefix,
        spec_ifd_walk(raw, e, next, 1),
    ));
    assert(prefix + Seq::<ExifIFDView>::empty() =~= prefix);
    lemma_walk_is_chain(raw, e, start, steps + 1);
}

/// No walk from an offset past the block ends.
proof fn lemma_past_end_never_ends(raw: Seq<u8>, e: Endianness, off: int, g: nat)
    requires
        off > raw.len(),
    ensures
        spec_ifd_walk(raw, e, off, g) is None,
{
}

/// Where no walk ends from some point of a stretch of the chain, none ends
/// from its start.
proof fn lemma_blocked_never_ends(raw: Seq<u8>, e: Endianness, ext: Seq<int>, k: int)
    requires
        chain_path(raw, e, ext),
        0 <= k < ext.len(),
        forall|g: nat| #[trigger] spec_ifd_walk(raw, e, ext[k], g) is None,
    ensures
        !ifd_walk_ends(raw, e, ext[0]),
{
    assert forall|f: nat| !(#[trigger] spec_ifd_walk(raw, e, ext[0], f) is Some) by {
        if spec_ifd_walk(raw, e, ext[0], f) is Some {
            lemma_follow(raw, e, ext, 0, k, f);
            assert(spec_ifd_walk(raw, e, ext[k], (f - k) as nat) is None);
        }
    }
}

/// A stretch of the chain longer than the block has bytes holds a cycle.
proof fn lemma_long_path_cycles(raw: Seq<u8>, e: Endianness, ext: Seq<int>)
    requires
        chain_path(raw, e, ext),
        ext.len() > raw.len(),
        forall|i: int| 0 <= i < ext.len() ==> 1 <= #[trigger] ext[i] <= raw.len(),
    ensures
        exists|a: int, b: int| 0 <= a < b < ext.len() && ext[a] == ext[b],
{
    let n = raw.len() as int;
    let head = ext.take(n + 1);
    assert forall|i: int| 0 <= i < head.len() implies 1 <= #[trigger] head[i] <= n by {
        assert(head[i] == ext[i]);
    }
    lemma_pigeonhole(head, n);
    let (a, b) = choose|a: int, b: int| 0 <= a < b < head.len() && head[a] == head[b];
    assert(ext[a] == head[a] && ext[b] == head[b]);
}

/// A single offset is a stretch of the chain.
proof fn lemma_chain_path_one(raw: Seq<u8>, e: Endianness, x: int)
    ensures
        chain_path(raw, e, seq![x]),
{
    reveal(chain_path);
}

/// Every offset of a stretch of the chain but the last lies inside the
/// block and is not 0.
proof fn lemma_chain_bounds(raw: Seq<u8>, e: Endianness, ext: Seq<int>)
    requires
        chain_path(raw, e, ext),
        ext.len() > 0,
        1 <= ext.last() <= raw.len(),
    ensures
        forall|i: int| 0 <= i < ext.len() ==> 1 <= #[trigger] ext[i] <= raw.len(),
{
    reveal(chain_path);
    assert forall|i: int| 0 <= i < ext.len() implies 1 <= #[trigger] ext[i] <= raw.len() by {
        if i < ext.len() - 1 {
            assert(1 <= ext[i] <= raw.len());
        }
    }
}

/// A chain whose next offset lies past the block, or that has gone through
/// as many IFDs as the block has bytes, never ends.
proof fn lemma_stop_never_ends(raw: Seq<u8>, e: Endianness, start: int, offs: Seq<int>, next: int)
    requires
        chain_path(raw, e, offs.push(next)),
        offs.push(next)[0] == start,
        next > 0,
        next > raw.len() || offs.len() >= raw.len(),
    ensures
        !ifd_walk_ends(raw, e, start),
{
    let ext = offs.push(next);
    let steps = offs.len() as int;
    assert(ext[steps] == next);
    if next > raw.len() {
        assert forall|g: nat| #[trigger] spec_ifd_walk(raw, e, ext[steps], g) is None by {
            lemma_past_end_never_ends(raw, e, next, g);
        }
        lemma_blocked_never_ends(raw, e, ext, steps);
    } else {
        assert(ext.last() == next);
        lemma_chain_bounds(raw, e, ext);
        lemma_long_path_cycles(raw, e, ext);
        let (a, b) = choose|a: int, b: int| 0 <= a < b < ext.len() && ext[a] == ext[b];
        assert forall|g: nat| #[trigger] spec_ifd_walk(raw, e, ext[a], g) is None by {
            lemma_cycle_never_ends(raw, e, ext, a, b, g);
        }
        lemma_blocked_never_ends(raw, e, ext, a);
    }
}

/// A chain whose size, once the IFD at `next` is counted, exceeds a
/// `usize` leaves `parse_from_raw` without a result.
proof fn lemma_overflow_never_ends(
    raw: Seq<u8>,
    e: Endianness,
    start: int,
    offs: Seq<int>,
    prefix: Seq<ExifIFDView>,
    next: int,
    steps: nat,
)
    requires
        walk_after(raw, e, start, prefix, next, steps),
        chain_path(raw, e, offs.push(next)),
        offs.len() == steps,
        offs.push(next)[0] == start,
        next != 0,
        next <= raw.len(),
        spec_parse_ifd(raw, next, e) is Ok,
        10 + ifds_size(prefix) + spec_parse_ifd(raw, next, e)->Ok_0.entries.len() * 12 + 6
            > usize::MAX,
    ensures
        !(ifd_walk_ends(raw, e, start) && 10 + ifds_size(ifd_walk(raw, e, start).0) <= usize::MAX),
{
    let ext = offs.push(next);
    let ifd = spec_parse_ifd(raw, next, e)->Ok_0;
    if ifd_walk_ends(raw, e, start) {
        let ff = choose|fuel: nat| spec_ifd_walk(raw, e, start, fuel) is Some;
        assert(ext[steps as int] == next);
        lemma_follow(raw, e, ext, 0, steps as int, ff);
        let g = (ff - steps) as nat;
        let r = spec_ifd_walk(raw, e, ifd.offset as int, (g - 1) as nat)->0;
        assert(spec_ifd_walk(raw, e, start, ff) == after_ifds(
            prefix,
            spec_ifd_walk(raw, e, next, g),
        ));
        let whole = ifd_walk(raw, e, start);
        assert(whole.0 == prefix + (seq![ifd] + r.0));
        lemma_ifds_size_concat(prefix, seq![ifd] + r.0);
        lemma_ifds_size_concat(seq![ifd], r.0);
        assert(seq![ifd].drop_last() =~= Seq::<ExifIFDView>::empty());
    }
}

/// The IFDs of a chain each hold as many entries as their count says; a
/// chain that ends without failure is empty exactly when it starts at
/// offset 0, and its last IFD, and no other, has a next offset of 0.
pub proof fn lemma_walk_shape(raw: Seq<u8>, e: Endianness, off: int, fuel: nat)
    requires
        spec_ifd_walk(raw, e, off, fuel) is Some,
    ensures
        ({
            let w = spec_ifd_walk(raw, e, off, fuel)->0;
            &&& forall|i: int|
                0 <= i < w.0.len() ==> (#[trigger] w.0[i]).entries.len() == w.0[i].entry_count
            &&& w.1 is None ==> {
                &&& (w.0.len() == 0 <==> off == 0)
                &&& w.0.len() > 0 ==> w.0.last().offset == 0
                &&& forall|i: int| 0 <= i < w.0.len() - 1 ==> (#[trigger] w.0[i]).offset != 0
            }
        }),
    decreases fuel,
{
    if off != 0 {
        if let Ok(ifd) = spec_parse_ifd(raw, off, e) {
            let next = ifd.offset as int;
            lemma_walk_shape(raw, e, next, (fuel - 1) as nat);
            lemma_fields_len(raw, off + 2, e, spec_u16(raw, off, e) as nat);
            let rest = spec_ifd_walk(raw, e, next, (fuel - 1) as nat)->0;
            let w = spec_ifd_walk(raw, e, off, fuel)->0;
            assert(w.0 == seq![ifd] + rest.0);
            assert forall|i: int| 0 <= i < w.0.len() implies (#[trigger] w.0[i]).entries.len()
                == w.0[i].entry_count by {
                if i > 0 {
                    assert(w.0[i] == rest.0[i - 1]);
                }
            }
            if w.1 is None {
                assert forall|i: int| 0 <= i < w.0.len() - 1 implies (#[trigger] w.0[i]).offset
                    != 0 by {
                    if i > 0 {
                        assert(w.0[i] == rest.0[i - 1]);
                    }
                }
                if rest.0.len() > 0 {
                    assert(w.0.last() == rest.0.last());
                }
            }
        }
    }
}

/// What a block read without failure holds: the header is 8 bytes and its
/// mark is valid; the data's byte order is the one the mark announces; each
/// IFD holds as many entries as its count says; there are IFDs exactly when
/// the header's offset is not 0; the last IFD, and no other, ends the chain
/// with an offset of 0; and `size` is 10 plus, per IFD, 12 per entry and 6.
pub proof fn lemma_parsed_block(raw: Seq<u8>)
    requires
        parse_from_raw_ends(raw),
        spec_parse_from_raw(raw) is Ok,
    ensures
        ({
            let (n, d) = spec_parse_from_raw(raw)->Ok_0;
            &&& n == 8
            &&& d.header.wf()
            &&& d.endian == d.header.spec_endianness()
            &&& forall|i: int|
                0 <= i < d.ifds.len() ==> (#[trigger] d.ifds[i]).entries.len()
                    == d.ifds[i].entry_count
            &&& (d.ifds.len() == 0 <==> d.header.ifd_offset == 0)
            &&& d.ifds.len() > 0 ==> d.ifds.last().offset == 0
            &&& forall|i: int| 0 <= i < d.ifds.len() - 1 ==> (#[trigger] d.ifds[i]).offset != 0
            &&& d.size == 10 + ifds_size(d.ifds)
        }),
{
    let h = spec_parse_header(raw)->Ok_0;
    let e = h.spec_endianness();
    let start = h.ifd_offset as int;
    let fuel = choose|fuel: nat| spec_ifd_walk(raw, e, start, fuel) is Some;
    lemma_walk_shape(raw, e, start, fuel);
}

/// Reading a 16-bit or 32-bit integer inside `raw` is not changed by bytes
/// after it.
proof fn lemma_read_extended(raw: Seq<u8>, extra: Seq<u8>, at: int, e: Endianness)
    requires
        0 <= at,
    ensures
        at + 2 <= raw.len() ==> spec_u16(raw + extra, at, e) == spec_u16(raw, at, e),
        at + 4 <= raw.len() ==> spec_u32(raw + extra, at, e) == spec_u32(raw, at, e),
{
    if at + 2 <= raw.len() {
        assert((raw + extra)[at] == raw[at]);
        assert((raw + extra)[at + 1] == raw[at + 1]);
    }
    if at + 4 <= raw.len() {
        assert((raw + extra)[at + 2] == raw[at + 2]);
        assert((raw + extra)[at + 3] == raw[at + 3]);
    }
}

/// Fields read inside `raw` are not changed by bytes after them.
proof fn lemma_fields_extended(raw: Seq<u8>, extra: Seq<u8>, at: int, e: Endianness, n: nat)
    requires
        0 <= at,
        spec_parse_fields(raw, at, e, n) is Ok,
    ensures
        spec_parse_fields(raw + extra, at, e, n) == spec_parse_fields(raw, at, e, n),
    decreases n,
{
    if n > 0 {
        lemma_fields_extended(raw, extra, at, e, (n - 1) as nat);
        let p = at + 12 * (n - 1);
        lemma_read_extended(raw, extra, p, e);
        lemma_read_extended(raw, extra, p + 2, e);
        lemma_read_extended(raw, extra, p + 4, e);
        lemma_read_extended(raw, extra, p + 8, e);
    }
}

/// A chain that ends without failure inside `raw` is not changed by bytes
/// after `raw`.
proof fn lemma_walk_extended(raw: Seq<u8>, extra: Seq<u8>, e: Endianness, off: int, fuel: nat)
    requires
        0 <= off,
        spec_ifd_walk(raw, e, off, fuel) matches Some((_, err)) && err is None,
    ensures
        spec_ifd_walk(raw + extra, e, off, fuel) == spec_ifd_walk(raw, e, off, fuel),
    decreases fuel,
{
    if off != 0 {
        let ifd = spec_parse_ifd(raw, off, e)->Ok_0;
        let count = spec_u16(raw, off, e);
        lemma_read_extended(raw, extra, off, e);
        lemma_fields_extended(raw, extra, off + 2, e, count as nat);
        lemma_read_extended(raw, extra, off + 2 + 12 * count, e);
        assert(spec_parse_ifd(raw + extra, off, e) == spec_parse_ifd(raw, off, e));
        lemma_walk_extended(raw, extra, e, ifd.offset as int, (fuel - 1) as nat);
    }
}

/// Appending bytes after a block that is read without failure changes
/// nothing of what is read.
pub proof fn lemma_trailing_bytes(raw: Seq<u8>, extra: Seq<u8>)
    requires
        parse_from_raw_ends(raw),
        spec_parse_from_raw(raw) is Ok,
    ensures
        parse_from_raw_ends(raw + extra),
        spec_parse_from_raw(raw + extra) == spec_parse_from_raw(raw),
{
    let h = spec_parse_header(raw)->Ok_0;
    lemma_read_extended(raw, extra, 0, Endianness::Big);
    let e = h.spec_endianness();
    lemma_read_extended(raw, extra, 2, e);
    lemma_read_extended(raw, extra, 4, e);
    assert(spec_parse_header(raw + extra) == spec_parse_header(raw));
    let start = h.ifd_offset as int;
    let fuel = choose|fuel: nat| spec_ifd_walk(raw, e, start, fuel) is Some;
    lemma_walk_extended(raw, extra, e, start, fuel);
    lemma_walk_is_chain(raw + extra, e, start, fuel);
}

/// The 16-bit integer whose bytes are `raw[i]`, `raw[i + 1]`, the more
/// significant first where `e` is `Big` and last where it is `Little`.
pub open spec fn int16_in(raw: Seq<u8>, i: int, e: Endianness) -> int {
    if e is Big {
        raw[i] * 256 + raw[i + 1]
    } else {
        raw[i + 1] * 256 + raw[i]
    }
}

/// The 32-bit integer whose bytes are `raw[i..i + 4]`, the most significant
/// first where `e` is `Big` and last where it is `Little`.
pub open spec fn int32_in(raw: Seq<u8>, i: int, e: Endianness) -> int {
    if e is Big {
        ((raw[i] * 256 + raw[i + 1]) * 256 + raw[i + 2]) * 256 + raw[i + 3]
    } else {
        ((raw[i + 3] * 256 + raw[i + 2]) * 256 + raw[i + 1]) * 256 + raw[i]
    }
}

/// The integers of a block, read at positions inside it, are those its
/// bytes make in the given order.
proof fn lemma_ints_in_order(raw: Seq<u8>, i: int, e: Endianness)
    requires
        0 <= i,
    ensures
        i + 2 <= raw.len() ==> spec_u16(raw, i, e) == int16_in(raw, i, e),
        i + 4 <= raw.len() ==> spec_u32(raw, i, e) == int32_in(raw, i, e),
{
    if i + 2 <= raw.len() {
        assert(0 <= raw[i] <= 255 && 0 <= raw[i + 1] <= 255);
    }
    if i + 4 <= raw.len() {
        assert(0 <= raw[i] <= 255 && 0 <= raw[i + 1] <= 255 && 0 <= raw[i + 2] <= 255 && 0
            <= raw[i + 3] <= 255);
    }
}

/// The header announces the byte order by its first two bytes, `II` for
/// little-endian and `MM` for big-endian, and its version and the offset of
/// the first IFD are read in that order.
pub proof fn lemma_header_read_in_announced_order(raw: Seq<u8>)
    ensures
        spec_parse_header(raw) matches Ok(h) ==> {
            let e = if raw[0] == 0x49 { Endianness::Little } else { Endianness::Big };
            &&& raw.len() >= 8
            &&& (raw[0] == 0x49 && raw[1] == 0x49) || (raw[0] == 0x4D && raw[1] == 0x4D)
            &&& h.version == int16_in(raw, 2, e)
            &&& h.ifd_offset == int32_in(raw, 4, e)
        },
{
    if raw.len() >= 8 {
        lemma_ints_in_order(raw, 0, Endianness::Big);
        lemma_ints_in_order(raw, 2, Endianness::Big);
        lemma_ints_in_order(raw, 2, Endianness::Little);
        lemma_ints_in_order(raw, 4, Endianness::Big);
        lemma_ints_in_order(raw, 4, Endianness::Little);
    }
}

/// The fields of an IFD are read in the block's byte order: each of the `n`
/// fields from `at` holds, at its place, a 16-bit tag and type and a 32-bit
/// length and value.
pub proof fn lemma_fields_read_in_block_order(raw: Seq<u8>, at: int, e: Endianness, n: nat)
    requires
        0 <= at,
    ensures
        spec_parse_fields(raw, at, e, n) matches Ok(fs) ==> {
            &&& fs.len() == n
            &&& n > 0 ==> at + 12 * n <= raw.len()
            &&& forall|i: int|
                0 <= i < n ==> {
                    let q = at + 12 * i;
                    &&& (#[trigger] fs[i]).tag == int16_in(raw, q, e)
                    &&& fs[i].etype == int16_in(raw, q + 2, e)
                    &&& fs[i].length == int32_in(raw, q + 4, e)
                    &&& fs[i].value == int32_in(raw, q + 8, e)
                }
        },
    decreases n,
{
    if n > 0 {
        lemma_fields_read_in_block_order(raw, at, e, (n - 1) as nat);
        let q = at + 12 * (n - 1);
        lemma_ints_in_order(raw, q, e);
        lemma_ints_in_order(raw, q + 2, e);
        lemma_ints_in_order(raw, q + 4, e);
        lemma_ints_in_order(raw, q + 8, e);
        if let Ok(fs) = spec_parse_fields(raw, at, e, n) {
            let prev = spec_parse_fields(raw, at, e, (n - 1) as nat)->Ok_0;
            assert(fs == prev.push(spec_parse_field(raw, q, e)->Ok_0));
            assert forall|i: int| 0 <= i < n - 1 implies #[trigger] fs[i] == prev[i] by {}
        }
    }
}

/// An IFD is read wholly in the block's byte order: its count, its fields,
/// and the offset of the next IFD stored right after its fields.
pub proof fn lemma_ifd_read_in_block_order(raw: Seq<u8>, at: int, e: Endianness)
    requires
        0 <= at,
    ensures
        spec_parse_ifd(raw, at, e) matches Ok(v) ==> {
            let p = at + 2 + 12 * v.entry_count;
            &&& p + 4 <= raw.len()
            &&& v.entry_count == int16_in(raw, at, e)
            &&& v.entries.len() == v.entry_count
            &&& forall|i: int|
                0 <= i < v.entry_count ==> {
                    let q = at + 2 + 12 * i;
                    &&& (#[trigger] v.entries[i]).tag == int16_in(raw, q, e)
                    &&& v.entries[i].etype == int16_in(raw, q + 2, e)
                    &&& v.entries[i].length == int32_in(raw, q + 4, e)
                    &&& v.entries[i].value == int32_in(raw, q + 8, e)
                }
            &&& v.offset == int32_in(raw, p, e)
        },
{
    if raw.len() >= at + 2 {
        let count = spec_u16(raw, at, e);
        let p = at + 2 + 12 * count;
        lemma_ints_in_order(raw, at, e);
        lemma_fields_read_in_block_order(raw, at + 2, e, count as nat);
        lemma_ints_in_order(raw, p, e);
    }
}

/// Two blocks that differ only in byte order, each 16-bit and 32-bit integer
/// of an IFD stored in its own order, hold the same IFD: the same count and
/// the same next offset.
pub proof fn lemma_ifd_same_in_either_order(big: Seq<u8>, little: Seq<u8>, at: int, n: int)
    requires
        0 <= at,
        0 <= n < 65536,
        at + 2 <= big.len(),
        big.len() == little.len(),
        big[at] * 256 + big[at + 1] == n,
        little[at] == big[at + 1],
        little[at + 1] == big[at],
        at + 2 + 12 * n + 4 <= big.len() ==> {
            let p = at + 2 + 12 * n;
            &&& little[p] == big[p + 3]
            &&& little[p + 1] == big[p + 2]
            &&& little[p + 2] == big[p + 1]
            &&& little[p + 3] == big[p]
        },
        spec_parse_ifd(big, at, Endianness::Big) is Ok,
        spec_parse_ifd(little, at, Endianness::Little) is Ok,
    ensures
        spec_parse_ifd(big, at, Endianness::Big)->Ok_0.entry_count == spec_parse_ifd(
            little,
            at,
            Endianness::Little,
        )->Ok_0.entry_count,
        spec_parse_ifd(big, at, Endianness::Big)->Ok_0.offset == spec_parse_ifd(
            little,
            at,
            Endianness::Little,
        )->Ok_0.offset,
{
    lemma_ifd_read_in_block_order(big, at, Endianness::Big);
    lemma_ifd_read_in_block_order(little, at, Endianness::Little);
}

} // verus!
