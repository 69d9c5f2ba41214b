//! Assembly of one plain-encoded data page: presence bitmap and values,
//! optionally compressed, with the header that describes them.
use vstd::prelude::*;

use crate::bitmap::{bitmap_buffer, hybrid, lemma_hybrid_len};
use crate::compression::{compressible, create_codec, is_supported, stored, Compression};
use crate::error::Error;
use crate::native::{NativeType, PhysicalType};
use crate::statistics::{
    block_of, compute_statistics, serialize_statistics, statistics_of, StatisticsBlock,
    StatisticsModel,
};
use crate::values::{plain_bytes, presence, unzip_option};

verus! {

/// Schema metadata of a column, carried through to its pages: its physical
/// type, its path in the schema, and its largest definition and repetition
/// levels.
#[derive(Debug, PartialEq, Eq)]
pub struct ColumnDescriptor {
    pub physical_type: PhysicalType,
    pub path: Vec<String>,
    pub max_def_level: i16,
    pub max_rep_level: i16,
}

/// `a` and `b` describe the same column.
pub open spec fn same_descriptor(a: ColumnDescriptor, b: ColumnDescriptor) -> bool {
    &&& a.physical_type == b.physical_type
    &&& a.path@ == b.path@
    &&& a.max_def_level == b.max_def_level
    &&& a.max_rep_level == b.max_rep_level
}

impl ColumnDescriptor {
    /// A copy of this descriptor, to attach to a page.
    pub fn duplicate(&self) -> (r: ColumnDescriptor)
        ensures
            same_descriptor(r, *self),
    {
        let mut path: Vec<String> = Vec::new();
        let mut i: usize = 0;
        while i < self.path.len()
            invariant
                i <= self.path@.len(),
                path@ == self.path@.take(i as int),
            decreases self.path@.len() - i,
        {
            path.push(self.path[i].clone());
            i = i + 1;
            assert(path@ =~= self.path@.take(i as int));
        }
        assert(self.path@.take(self.path@.len() as int) =~= self.path@);
        ColumnDescriptor {
            physical_type: self.physical_type,
            path,
            max_def_level: self.max_def_level,
            max_rep_level: self.max_rep_level,
        }
    }
}

/// What the caller asks of a page: whether to attach statistics, and which
/// compression algorithm to store its payload with.
#[derive(Debug, Clone, Copy, PartialEq, Eq, Structural)]
pub struct WriteOptions {
    pub write_statistics: bool,
    pub compression: Compression,
}

/// Encodings that a page header names.
#[derive(Debug, Clone, Copy, PartialEq, Eq, Structural)]
pub enum Encoding {
    Plain,
    Rle,
}

/// Header of a data page.
#[derive(Debug)]
pub struct DataPageHeaderV1 {
    pub num_values: i32,
    pub encoding: Encoding,
    pub definition_level_encoding: Encoding,
    pub repetition_level_encoding: Encoding,
    pub statistics: Option<StatisticsBlock>,
}

/// A dictionary page that data pages of a dictionary-encoded column refer
/// to: its stored payload, the algorithm it was stored with, the number of
/// entries, and the payload's length before compression.
#[derive(Debug)]
pub struct CompressedDictPage {
    pub buffer: Vec<u8>,
    pub compression: Compression,
    pub num_values: usize,
    pub uncompressed_page_size: usize,
}

/// A data page ready to be written: its header, its stored payload, the
/// algorithm it was stored with, the payload's length before compression,
/// the dictionary page it refers to (none for plain-encoded pages), and the
/// column it belongs to.
#[derive(Debug)]
pub struct CompressedDataPage {
    pub header: DataPageHeaderV1,
    pub buffer: Vec<u8>,
    pub compression: Compression,
    pub uncompressed_page_size: usize,
    pub dictionary_page: Option<CompressedDictPage>,
    pub descriptor: ColumnDescriptor,
}

pub open spec fn statistics_view(o: Option<StatisticsBlock>) -> Option<StatisticsModel> {
    match o {
        Some(s) => Some(s@),
        None => None,
    }
}

/// The uncompressed payload of a page of `col`: its encoded bitmap buffer,
/// then the plain bytes of its present values.
pub open spec fn raw_page<T: NativeType>(col: Seq<Option<T>>) -> Seq<u8> {
    bitmap_buffer(presence(col)) + plain_bytes(col)
}

/// `p` is the page of `col` under `options`, for the column `descriptor`.
/// The whole uncompressed payload, bitmap included, is what gets compressed,
/// so that decompressing the stored bytes gives back `raw_page(col)`.
pub open spec fn is_page_of<T: NativeType>(
    col: Seq<Option<T>>,
    options: WriteOptions,
    descriptor: ColumnDescriptor,
    p: CompressedDataPage,
) -> bool {
    &&& p.header.num_values == col.len()
    &&& p.header.encoding == Encoding::Plain
    &&& p.header.definition_level_encoding == Encoding::Rle
    &&& p.header.repetition_level_encoding == Encoding::Rle
    &&& statistics_view(p.header.statistics) == if options.write_statistics {
        Some(block_of(statistics_of(col)))
    } else {
        None
    }
    &&& p.buffer@ == stored(options.compression, raw_page(col))
    &&& p.compression == options.compression
    &&& p.uncompressed_page_size == raw_page(col).len()
    &&& p.dictionary_page is None
    &&& same_descriptor(p.descriptor, descriptor)
}

/// Builds the data page of `array`: presence bitmap and plain values, stored
/// under `options.compression`, with statistics when `options` asks for them.
/// An algorithm that is not provided fails with `Compression` before any
/// encoding; a column of more rows than the header's 32-bit count fails with
/// `Encoding`; otherwise it succeeds, unless the payload is too long for
/// the compressor (see `compressible`), which gives `Compression`.
pub fn array_to_page_v1<T: NativeType>(
    array: &[Option<T>],
    options: &WriteOptions,
    descriptor: &ColumnDescriptor,
) -> (r: Result<CompressedDataPage, Error>)
    ensures
        !is_supported(options.compression) ==> r == Err::<CompressedDataPage, Error>(
            Error::Compression(options.compression),
        ),
        is_supported(options.compression) && array@.len() > i32::MAX ==> r == Err::<
            CompressedDataPage,
            Error,
        >(Error::Encoding),
        is_supported(options.compression) && array@.len() <= i32::MAX && compressible(
            options.compression,
            raw_page(array@).len(),
        ) ==> r is Ok,
        r matches Err(e) ==> (e == Error::Compression(options.compression)
            && options.compression != Compression::Uncompressed) || (e == Error::Encoding
            && array@.len() > i32::MAX),
        r matches Ok(p) ==> is_page_of(array@, *options, *descriptor, p),
{
    let codec = create_codec(&options.compression)?;
    if array.len() > 0x7fff_ffff {
        return Err(Error::Encoding);
    }
    proof {
        lemma_hybrid_len(presence(array@), 0);
    }
    let (mut values, mut buffer) = match unzip_option(array) {
        Ok(parts) => parts,
        Err(e) => {
            return Err(e);
        },
    };
    buffer.append(&mut values);
    let uncompressed_page_size = buffer.len();
    let buffer = match codec {
        Some(c) => {
            let mut tmp: Vec<u8> = Vec::new();
            c.compress(buffer.as_slice(), &mut tmp)?;
            assert(tmp@ =~= Seq::<u8>::empty() + crate::compression::compressed(c, buffer@));
            tmp
        },
        None => buffer,
    };
    let statistics = if options.write_statistics {
        let s = compute_statistics(array);
        Some(serialize_statistics(&s))
    } else {
        None
    };
    let header = DataPageHeaderV1 {
        num_values: array.len() as i32,
        encoding: Encoding::Plain,
        definition_level_encoding: Encoding::Rle,
        repetition_level_encoding: Encoding::Rle,
        statistics,
    };
    Ok(
        CompressedDataPage {
            header,
            buffer,
            compression: options.compression,
            uncompressed_page_size,
            dictionary_page: None,
            descriptor: descriptor.duplicate(),
        },
    )
}

/// The size recorded as uncompressed is the length of the bitmap buffer and
/// value bytes before compression, whatever the algorithm; uncompressed, it
/// is the length of the stored payload.
pub proof fn lemma_uncompressed_size<T: NativeType>(
    col: Seq<Option<T>>,
    options: WriteOptions,
    descriptor: ColumnDescriptor,
    p: CompressedDataPage,
)
    requires
        is_page_of(col, options, descriptor, p),
    ensures
        p.uncompressed_page_size == bitmap_buffer(presence(col)).len() + plain_bytes(col).len(),
        options.compression == Compression::Uncompressed ==> p.uncompressed_page_size
            == p.buffer@.len(),
{
}

/// Two pages built from the same column and options store the same bytes
/// and record the same sizes and counts.
pub proof fn lemma_pages_agree<T: NativeType>(
    col: Seq<Option<T>>,
    options: WriteOptions,
    descriptor: ColumnDescriptor,
    p: CompressedDataPage,
    q: CompressedDataPage,
)
    requires
        is_page_of(col, options, descriptor, p),
        is_page_of(col, options, descriptor, q),
    ensures
        p.buffer@ == q.buffer@,
        p.uncompressed_page_size == q.uncompressed_page_size,
        p.header.num_values == q.header.num_values,
        statistics_view(p.header.statistics) == statistics_view(q.header.statistics),
{
}

} // verus!
