//! The metadata of an archive in memory: coders, blocks and entries, each with the
//! view that the contracts speak of.

use vstd::prelude::*;

use crate::coder::Coder;

verus! {

/// What a coder is, as mathematics sees it.
pub struct CoderView {
    pub method_id: Seq<u8>,
    pub num_in_streams: u64,
    pub num_out_streams: u64,
    pub properties: Seq<u8>,
}

impl View for Coder {
    type V = CoderView;

    open spec fn view(&self) -> CoderView {
        CoderView {
            method_id: self.method_id@,
            num_in_streams: self.num_in_streams,
            num_out_streams: self.num_out_streams,
            properties: self.properties@,
        }
    }
}

/// The output of one coder of a block feeding the input of another.
#[derive(Clone, Copy, Debug, PartialEq, Eq, Structural)]
pub struct BindPair {
    /// The input stream that is fed, counted over the inputs of all coders.
    pub in_index: u64,
    /// The output stream that feeds it, counted over the outputs of all coders.
    pub out_index: u64,
}

/// A compression unit: a pipeline of coders, and the files whose bytes, one after
/// the other, are its output.
#[derive(Clone, Debug, PartialEq, Eq)]
pub struct Block {
    pub coders: Vec<Coder>,
    pub bind_pairs: Vec<BindPair>,
    /// The input streams that pack streams feed, counted over the inputs of all
    /// coders.
    pub packed_streams: Vec<u64>,
    /// The size of each output stream, counted over the outputs of all coders.
    pub unpack_sizes: Vec<u64>,
    /// The CRC32 of the output of the block, where one is declared.
    pub crc: Option<u32>,
    /// The size of the bytes of each file in the output of the block.
    pub substream_sizes: Vec<u64>,
    /// The CRC32 of the bytes of each file, where one is declared.
    pub substream_crcs: Vec<Option<u32>>,
}

/// What a block is, as mathematics sees it.
pub struct BlockView {
    pub coders: Seq<CoderView>,
    pub bind_pairs: Seq<BindPair>,
    pub packed_streams: Seq<u64>,
    pub unpack_sizes: Seq<u64>,
    pub crc: Option<u32>,
    pub substream_sizes: Seq<u64>,
    pub substream_crcs: Seq<Option<u32>>,
}

impl View for Block {
    type V = BlockView;

    open spec fn view(&self) -> BlockView {
        BlockView {
            coders: Seq::new(self.coders@.len(), |i: int| self.coders@[i]@),
            bind_pairs: self.bind_pairs@,
            packed_streams: self.packed_streams@,
            unpack_sizes: self.unpack_sizes@,
            crc: self.crc,
            substream_sizes: self.substream_sizes@,
            substream_crcs: self.substream_crcs@,
        }
    }
}

/// A file or a directory as the archive records it. Its size and CRC are those of
/// its substream, where it has one.
#[derive(Clone, Debug, PartialEq, Eq)]
pub struct ArchiveEntry {
    /// The name, in UTF-16 code units.
    pub name: Vec<u16>,
    /// Whether bytes of a block belong to the entry. Directories, empty files and
    /// anti-items have none.
    pub has_stream: bool,
    pub is_directory: bool,
    /// Whether the entry stands for a deletion.
    pub is_anti_item: bool,
    /// The times, in units of 100 ns since 1601-01-01 UTC.
    pub creation_date: Option<u64>,
    pub access_date: Option<u64>,
    pub last_modified_date: Option<u64>,
    pub windows_attributes: Option<u32>,
}

/// What an entry is, as mathematics sees it.
pub struct EntryView {
    pub name: Seq<u16>,
    pub has_stream: bool,
    pub is_directory: bool,
    pub is_anti_item: bool,
    pub creation_date: Option<u64>,
    pub access_date: Option<u64>,
    pub last_modified_date: Option<u64>,
    pub windows_attributes: Option<u32>,
}

impl View for ArchiveEntry {
    type V = EntryView;

    open spec fn view(&self) -> EntryView {
        EntryView {
            name: self.name@,
            has_stream: self.has_stream,
            is_directory: self.is_directory,
            is_anti_item: self.is_anti_item,
            creation_date: self.creation_date,
            access_date: self.access_date,
            last_modified_date: self.last_modified_date,
            windows_attributes: self.windows_attributes,
        }
    }
}

/// The metadata of an archive: where its pack streams lie, its blocks and its
/// entries.
#[derive(Clone, Debug, PartialEq, Eq)]
pub struct Archive {
    /// The distance of the first pack stream from the byte behind the start header.
    pub pack_pos: u64,
    pub pack_sizes: Vec<u64>,
    /// The CRC32 of each pack stream, where one is declared.
    pub pack_crcs: Vec<Option<u32>>,
    pub blocks: Vec<Block>,
    pub files: Vec<ArchiveEntry>,
}

/// What the metadata of an archive is, as mathematics sees it.
pub struct ArchiveView {
    pub pack_pos: u64,
    pub pack_sizes: Seq<u64>,
    pub pack_crcs: Seq<Option<u32>>,
    pub blocks: Seq<BlockView>,
    pub files: Seq<EntryView>,
}

impl View for Archive {
    type V = ArchiveView;

    open spec fn view(&self) -> ArchiveView {
        ArchiveView {
            pack_pos: self.pack_pos,
            pack_sizes: self.pack_sizes@,
            pack_crcs: self.pack_crcs@,
            blocks: Seq::new(self.blocks@.len(), |i: int| self.blocks@[i]@),
            files: Seq::new(self.files@.len(), |i: int| self.files@[i]@),
        }
    }
}

} // verus!
