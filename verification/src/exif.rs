//! The records of a TIFF/EXIF block: its header, its image file directories
//! (IFDs) and their fields, and the byte order that the header announces.
use vstd::prelude::*;

pub mod exif_parser;

verus! {

/// The byte-order mark of a little-endian block ("II").
pub const LE_VALUE: u16 = 0x4949;

/// The byte-order mark of a big-endian block ("MM").
pub const BE_VALUE: u16 = 0x4D4D;

/// The order in which multi-byte integers of a block are stored.
#[derive(Debug, Clone, Copy, PartialEq, Eq, Structural)]
pub enum Endianness {
    Big,
    Little,
}

/// A parsed EXIF block: its byte order, header and chain of IFDs, and
/// `size`, the number of bytes that the header and the IFDs account for.
#[derive(Debug)]
pub struct ExifData {
    pub size: usize,
    pub endian: Endianness,
    pub header: ExifHeader,
    pub ifds: Vec<ExifIFD>,
}

/// The header of a block: byte-order mark, version and offset of the first IFD.
#[derive(Debug, Clone, Copy, PartialEq, Eq, Structural)]
pub struct ExifHeader {
    pub byte_order: u16,
    pub version: u16,
    pub ifd_offset: u32,
}

/// An image file directory: its entries and the offset of the next IFD
/// (0 where it is the last one).
#[derive(Debug)]
pub struct ExifIFD {
    pub entry_count: u16,
    pub entries: Vec<ExifField>,
    pub offset: u32,
}

/// One entry of an IFD.
#[derive(Debug, Clone, Copy, PartialEq, Eq, Structural)]
pub struct ExifField {
    pub tag: u16,
    pub etype: u16,
    pub length: u32,
    pub value: u32,
}

/// The value of an [`ExifIFD`]: its entries as a sequence.
pub struct ExifIFDView {
    pub entry_count: u16,
    pub entries: Seq<ExifField>,
    pub offset: u32,
}

/// The value of an [`ExifData`]: its IFDs as a sequence of their values.
pub struct ExifDataView {
    pub size: usize,
    pub endian: Endianness,
    pub header: ExifHeader,
    pub ifds: Seq<ExifIFDView>,
}

impl View for ExifIFD {
    type V = ExifIFDView;

    open spec fn view(&self) -> ExifIFDView {
        ExifIFDView { entry_count: self.entry_count, entries: self.entries@, offset: self.offset }
    }
}

impl View for ExifData {
    type V = ExifDataView;

    open spec fn view(&self) -> ExifDataView {
        ExifDataView {
            size: self.size,
            endian: self.endian,
            header: self.header,
            ifds: self.ifds@.map_values(|i: ExifIFD| i@),
        }
    }
}

/// A byte-order mark that is neither [`LE_VALUE`] nor [`BE_VALUE`].
#[derive(Debug, Clone, Copy, PartialEq, Eq, Structural)]
pub struct ByteOrderError {
    pub value: u16,
}

impl ByteOrderError {
    /// The message that reports the error.
    pub fn message(&self) -> (m: &'static str)
        ensures
            m@ == "Couldn't find byte order"@,
    {
        "Couldn't find byte order"
    }
}

/// The byte order that a mark announces, if it is one of the two marks.
pub open spec fn spec_endian_byte(bytes: u16) -> Option<Endianness> {
    if bytes == LE_VALUE {
        Some(Endianness::Little)
    } else if bytes == BE_VALUE {
        Some(Endianness::Big)
    } else {
        None
    }
}

/// The byte order that the mark `bytes` announces: `Little` for "II",
/// `Big` for "MM", an error for any other value.
pub fn endian_byte(bytes: u16) -> (r: Result<Endianness, ByteOrderError>)
    ensures
        match spec_endian_byte(bytes) {
            Some(e) => r == Ok::<Endianness, ByteOrderError>(e),
            None => r == Err::<Endianness, ByteOrderError>(ByteOrderError { value: bytes }),
        },
{
    if bytes == LE_VALUE {
        Ok(Endianness::Little)
    } else if bytes == BE_VALUE {
        Ok(Endianness::Big)
    } else {
        Err(ByteOrderError { value: bytes })
    }
}

impl ExifHeader {
    /// A header that holds a valid byte-order mark.
    pub open spec fn wf(&self) -> bool {
        spec_endian_byte(self.byte_order) is Some
    }

    /// The byte order of the block, read from the header's mark.
    pub open spec fn spec_endianness(&self) -> Endianness {
        spec_endian_byte(self.byte_order)->0
    }
}

impl Default for ExifHeader {
    fn default() -> (r: ExifHeader)
        ensures
            r == (ExifHeader { byte_order: 0, version: 0, ifd_offset: 0 }),
    {
        ExifHeader { byte_order: 0, version: 0, ifd_offset: 0 }
    }
}

} // verus!
