//! An open BigBed file: its header, its chromosome tree, and the spatial
//! index, which is read when a query first needs it.

use vstd::prelude::*;
use vstd::string::StrSliceExecFns;
use crate::blocks::{collect_records, read_blocks, sort_by_offset, sorted_by_offset};
use crate::bptree::{all_chroms, bpt_header_at, chrom_views, lookup, BPlusTreeFile, Chrom, ChromView};
use crate::byteorder::{detect_byte_order, four_bytes, signature_order, u16_at, u32_at, u64_at};
use crate::cirtree::{blocks_for, cir_header_at, CIRTreeFile, FileOffsetSize};
use crate::error::{eof_error, lemma_then_extend_empty, lemma_then_extend_twice, then_extend, Error, ErrorView};
use crate::keys::{same_text, strip_null, stripped};
use crate::reader::ByteReader;
use crate::records::{line_views, room_after, room_left, BedLine, BedLineView};

verus! {

/// The signature that opens a BigBed file, as a big-endian file has it.
pub const BIGBED_SIG: [u8; 4] = [0x87, 0x89, 0xF2, 0xEB];

/// One level of the reduced data that a file may carry. The levels are
/// listed, never read.
#[derive(Debug, Clone, Copy, PartialEq, Eq, Structural)]
pub struct ZoomLevel {
    pub reduction_level: u32,
    pub reserved: u32,
    pub data_offset: u64,
    pub index_offset: u64,
}

/// What the fixed part of a file says.
pub struct FileHeader {
    pub big_endian: bool,
    pub version: u16,
    pub zoom_levels: u16,
    pub chrom_tree_offset: u64,
    pub unzoomed_data_offset: u64,
    pub unzoomed_index_offset: u64,
    pub field_count: u16,
    pub defined_field_count: u16,
    pub as_offset: u64,
    pub total_summary_offset: u64,
    pub uncompress_buf_size: usize,
    pub extension_offset: u64,
    pub level_list: Seq<ZoomLevel>,
    pub extension_size: Option<u16>,
    pub extra_index_count: Option<u16>,
    pub extra_index_list_offset: Option<u64>,
    pub chrom_bpt: BPlusTreeFile,
}

/// An open file.
#[derive(Debug)]
pub struct BigBed {
    reader: ByteReader,
    pub big_endian: bool,
    pub version: u16,
    pub zoom_levels: u16,
    pub chrom_tree_offset: u64,
    pub unzoomed_data_offset: u64,
    pub unzoomed_index_offset: u64,
    pub field_count: u16,
    pub defined_field_count: u16,
    pub as_offset: u64,
    pub total_summary_offset: u64,
    /// The size that the largest data block inflates to; zero where the
    /// blocks are not compressed.
    pub uncompress_buf_size: usize,
    pub extension_offset: u64,
    pub level_list: Vec<ZoomLevel>,
    pub extension_size: Option<u16>,
    pub extra_index_count: Option<u16>,
    pub extra_index_list_offset: Option<u64>,
    chrom_bpt: BPlusTreeFile,
    unzoomed_cir: Option<CIRTreeFile>,
}

/// The zoom level whose 24 bytes start at `at`.
pub open spec fn zoom_level_at(data: Seq<u8>, at: int, big_endian: bool) -> ZoomLevel {
    ZoomLevel {
        reduction_level: u32_at(data, at, big_endian),
        reserved: u32_at(data, at + 4, big_endian),
        data_offset: u64_at(data, at + 8, big_endian),
        index_offset: u64_at(data, at + 16, big_endian),
    }
}

/// The zoom levels, which follow the 64 fixed bytes.
pub open spec fn zoom_levels_of(data: Seq<u8>, count: int, big_endian: bool) -> Seq<ZoomLevel> {
    Seq::new(count as nat, |i: int| zoom_level_at(data, 64 + 24 * i, big_endian))
}

/// The header of the file `data`, read in the byte order that its signature
/// announces, with the head of its chromosome tree.
pub open spec fn file_header(data: Seq<u8>) -> Result<FileHeader, ErrorView> {
    if data.len() < 4 {
        Err(eof_error())
    } else {
        match signature_order(data.subrange(0, 4), BIGBED_SIG@) {
            None => Err(ErrorView::BadSig { expected: BIGBED_SIG@, received: data.subrange(0, 4) }),
            Some(big_endian) => {
                let zoom_levels = u16_at(data, 6, big_endian);
                let chrom_tree_offset = u64_at(data, 8, big_endian);
                let extension_offset = u64_at(data, 56, big_endian);
                let extended = extension_offset != 0;
                if data.len() < 64 + 24 * zoom_levels {
                    Err(eof_error())
                } else if extended && extension_offset + 12 > data.len() {
                    Err(eof_error())
                } else {
                    match bpt_header_at(data, chrom_tree_offset as int) {
                        Err(e) => Err(e),
                        Ok(chrom_bpt) => Ok(
                            FileHeader {
                                big_endian,
                                version: u16_at(data, 4, big_endian),
                                zoom_levels,
                                chrom_tree_offset,
                                unzoomed_data_offset: u64_at(data, 16, big_endian),
                                unzoomed_index_offset: u64_at(data, 24, big_endian),
                                field_count: u16_at(data, 32, big_endian),
                                defined_field_count: u16_at(data, 34, big_endian),
                                as_offset: u64_at(data, 36, big_endian),
                                total_summary_offset: u64_at(data, 44, big_endian),
                                uncompress_buf_size: u32_at(data, 52, big_endian) as usize,
                                extension_offset,
                                level_list: zoom_levels_of(data, zoom_levels as int, big_endian),
                                extension_size: if extended {
                                    Some(u16_at(data, extension_offset as int, big_endian))
                                } else {
                                    None
                                },
                                extra_index_count: if extended {
                                    Some(u16_at(data, extension_offset + 2, big_endian))
                                } else {
                                    None
                                },
                                extra_index_list_offset: if extended {
                                    Some(u64_at(data, extension_offset + 4, big_endian))
                                } else {
                                    None
                                },
                                chrom_bpt,
                            },
                        ),
                    }
                }
            },
        }
    }
}

/// The spatial index in use after one was asked for: the one already read,
/// else the one whose head lies at `offset`.
pub open spec fn attached_index(data: Seq<u8>, offset: u64, held: Option<CIRTreeFile>) -> Result<
    CIRTreeFile,
    ErrorView,
> {
    match held {
        Some(tree) => Ok(tree),
        None => cir_header_at(data, offset as int),
    }
}

/// The spatial index that is held after one was asked for: nothing changes
/// where reading its head failed.
pub open spec fn index_after_attach(data: Seq<u8>, offset: u64, held: Option<CIRTreeFile>)
    -> Option<CIRTreeFile> {
    match attached_index(data, offset, held) {
        Ok(tree) => Some(tree),
        Err(_) => held,
    }
}

/// The data blocks for a range, found through the spatial index.
pub open spec fn blocks_through_index(
    data: Seq<u8>,
    offset: u64,
    held: Option<CIRTreeFile>,
    chrom_id: u32,
    start: u32,
    end: u32,
) -> Result<Seq<FileOffsetSize>, ErrorView> {
    match attached_index(data, offset, held) {
        Err(e) => Err(e),
        Ok(tree) => blocks_for(data, tree, chrom_id, start, end),
    }
}

/// The number of the chromosome called `name`: the name is looked up as it
/// is and, where the file has no such name, once more without its first
/// three characters.
pub open spec fn resolve_chrom(data: Seq<u8>, tree: BPlusTreeFile, name: Seq<char>) -> Result<
    u32,
    ErrorView,
> {
    match lookup(data, tree, name) {
        Err(e) => Err(e),
        Ok(Some(found)) => Ok(found.id),
        Ok(None) => if name.len() < 3 {
            Err(ErrorView::BadChrom(name))
        } else {
            match lookup(data, tree, name.skip(3)) {
                Err(e) => Err(e),
                Ok(Some(found)) => Ok(found.id),
                Ok(None) => Err(ErrorView::BadChrom(name)),
            }
        },
    }
}

/// The start of the range that the spatial index is asked for: one base
/// before `start`, so that an empty record at `start` is not missed.
pub open spec fn padded_start(start: u32) -> u32 {
    if start > 0 {
        (start - 1) as u32
    } else {
        start
    }
}

/// The end of the range that the spatial index is asked for: one base
/// after `end`, where there is one.
pub open spec fn padded_end(end: u32) -> u32 {
    if end < u32::MAX {
        (end + 1) as u32
    } else {
        end
    }
}

/// The lines of the file `data` in the range from `start` to `end` on the
/// chromosome called `name`, at most `max_items` of them where that is above
/// zero: the data blocks that the spatial index gives for the padded range,
/// sorted by offset, read and decoded against the range itself.
pub open spec fn query_result(
    data: Seq<u8>,
    header: FileHeader,
    held: Option<CIRTreeFile>,
    name: Seq<char>,
    start: u32,
    end: u32,
    max_items: u32,
) -> Result<Seq<BedLineView>, ErrorView> {
    match resolve_chrom(data, header.chrom_bpt, name) {
        Err(e) => Err(e),
        Ok(chrom_id) => match blocks_through_index(
            data,
            header.unzoomed_index_offset,
            held,
            chrom_id,
            padded_start(start),
            padded_end(end),
        ) {
            Err(e) => Err(e),
            Ok(blocks) => collect_records(
                data,
                sorted_by_offset(blocks),
                header.uncompress_buf_size as nat,
                header.big_endian,
                chrom_id,
                start,
                end,
                room_left(max_items, 0),
            ),
        },
    }
}

/// The spatial index that is held after a query: a query reads it once the
/// chromosome is found.
pub open spec fn index_after_query(
    data: Seq<u8>,
    header: FileHeader,
    held: Option<CIRTreeFile>,
    name: Seq<char>,
) -> Option<CIRTreeFile> {
    match resolve_chrom(data, header.chrom_bpt, name) {
        Ok(_) => index_after_attach(data, header.unzoomed_index_offset, held),
        Err(_) => held,
    }
}

/// The lines of one chromosome, under the name to print them with.
#[derive(Debug, Clone, PartialEq)]
pub struct ChromLines {
    /// The chromosome's name without its padding.
    pub name: String,
    pub lines: Vec<BedLine>,
}

/// A [`ChromLines`] with its texts as sequences of characters.
pub struct ChromLinesView {
    pub name: Seq<char>,
    pub lines: Seq<BedLineView>,
}

impl View for ChromLines {
    type V = ChromLinesView;

    open spec fn view(&self) -> ChromLinesView {
        ChromLinesView { name: self.name@, lines: line_views(self.lines@) }
    }
}

/// The views of a sequence of groups.
pub open spec fn group_views(groups: Seq<ChromLines>) -> Seq<ChromLinesView> {
    Seq::new(groups.len(), |i: int| groups[i]@)
}

/// The text of an optional string.
pub open spec fn text_of(text: Option<&str>) -> Option<Seq<char>> {
    match text {
        Some(s) => Some(s@),
        None => None,
    }
}

/// Whether a chromosome is left out: a name was asked for, and it is not
/// this chromosome's name without its padding.
pub open spec fn left_out(only: Option<Seq<char>>, name: Seq<char>) -> bool {
    only matches Some(wanted) && wanted != stripped(name)
}

/// The start of the query for a chromosome: `start`, or zero.
pub open spec fn start_or_zero(start: Option<u32>) -> u32 {
    match start {
        Some(value) => value,
        None => 0,
    }
}

/// The end of the query for a chromosome of length `size`.
pub open spec fn end_or_size(end: Option<u32>, size: u32) -> u32 {
    match end {
        Some(value) => value,
        None => size,
    }
}

/// The room for lines that a limit for the whole file leaves at the start:
/// none where no limit is given.
pub open spec fn room_of(max_items: Option<u32>) -> Option<nat> {
    match max_items {
        Some(value) => Some(value as nat),
        None => None,
    }
}

/// The limit of the query for one chromosome: the room that is left, or
/// zero, which sets no limit, where none was given.
pub open spec fn limit_for(room: Option<nat>) -> u32 {
    match room {
        Some(left) => left as u32,
        None => 0,
    }
}

/// The lines of the chromosomes from index `i` on, one group for each
/// chromosome that is not left out, together with the spatial index that is
/// held afterwards. Each chromosome is asked for no more lines than there is
/// room for, and the work ends at the first chromosome that is not left out
/// and finds no room.
pub open spec fn bed_from(
    data: Seq<u8>,
    header: FileHeader,
    held: Option<CIRTreeFile>,
    chroms: Seq<ChromView>,
    i: int,
    only: Option<Seq<char>>,
    start: Option<u32>,
    end: Option<u32>,
    room: Option<nat>,
) -> (Result<Seq<ChromLinesView>, ErrorView>, Option<CIRTreeFile>)
    decreases chroms.len() - i,
{
    if i < 0 || i >= chroms.len() {
        (Ok(Seq::empty()), held)
    } else if left_out(only, chroms[i].name) {
        bed_from(data, header, held, chroms, i + 1, only, start, end, room)
    } else if room == Some(0nat) {
        (Ok(Seq::empty()), held)
    } else {
        let after = index_after_query(data, header, held, chroms[i].name);
        match query_result(
            data,
            header,
            held,
            chroms[i].name,
            start_or_zero(start),
            end_or_size(end, chroms[i].size),
            limit_for(room),
        ) {
            Err(e) => (Err(e), after),
            Ok(lines) => {
                let rest = bed_from(
                    data,
                    header,
                    after,
                    chroms,
                    i + 1,
                    only,
                    start,
                    end,
                    room_after(room, lines.len() as int),
                );
                (
                    then_extend(
                        seq![ChromLinesView { name: stripped(chroms[i].name), lines }],
                        rest.0,
                    ),
                    rest.1,
                )
            },
        }
    }
}

/// The lines of the whole file, chromosome by chromosome in the order of
/// the chromosome tree, at most `max_items` of them in all where a limit is
/// given, together with the spatial index that is held afterwards.
pub open spec fn bed_result(
    data: Seq<u8>,
    header: FileHeader,
    held: Option<CIRTreeFile>,
    only: Option<Seq<char>>,
    start: Option<u32>,
    end: Option<u32>,
    max_items: Option<u32>,
) -> (Result<Seq<ChromLinesView>, ErrorView>, Option<CIRTreeFile>) {
    match all_chroms(data, header.chrom_bpt) {
        Err(e) => (Err(e), held),
        Ok(chroms) => bed_from(data, header, held, chroms, 0, only, start, end, room_of(max_items)),
    }
}

impl BigBed {
    /// The bytes of the file.
    pub closed spec fn bytes(&self) -> Seq<u8> {
        self.reader.bytes()
    }

    /// The head of the spatial index, once it has been read.
    pub closed spec fn index(&self) -> Option<CIRTreeFile> {
        self.unzoomed_cir
    }

    /// What the file's header says: the public fields, and the head of the
    /// chromosome tree.
    pub closed spec fn header(&self) -> FileHeader {
        FileHeader {
            big_endian: self.big_endian,
            version: self.version,
            zoom_levels: self.zoom_levels,
            chrom_tree_offset: self.chrom_tree_offset,
            unzoomed_data_offset: self.unzoomed_data_offset,
            unzoomed_index_offset: self.unzoomed_index_offset,
            field_count: self.field_count,
            defined_field_count: self.defined_field_count,
            as_offset: self.as_offset,
            total_summary_offset: self.total_summary_offset,
            uncompress_buf_size: self.uncompress_buf_size,
            extension_offset: self.extension_offset,
            level_list: self.level_list@,
            extension_size: self.extension_size,
            extra_index_count: self.extra_index_count,
            extra_index_list_offset: self.extra_index_list_offset,
            chrom_bpt: self.chrom_bpt,
        }
    }

    /// Whether what is held of the file is what its bytes say: the header,
    /// and the spatial index where it has been read.
    pub open spec fn wf(&self) -> bool {
        &&& file_header(self.bytes()) == Ok::<FileHeader, ErrorView>(self.header())
        &&& self.index() matches Some(tree) ==> cir_header_at(
            self.bytes(),
            self.header().unzoomed_index_offset as int,
        ) == Ok::<CIRTreeFile, ErrorView>(tree)
    }

    /// Opens a file: reads its header, its zoom levels, its extension where
    /// it has one, and the head of its chromosome tree. The spatial index is
    /// left for later.
    pub fn from_file(reader: ByteReader) -> (r: Result<BigBed, Error>)
        ensures
            match r {
                Ok(file) => file_header(reader.bytes()) == Ok::<FileHeader, ErrorView>(
                    file.header(),
                ) && file.bytes() == reader.bytes() && file.index() is None && file.wf(),
                Err(e) => file_header(reader.bytes()) == Err::<FileHeader, ErrorView>(e@),
            },
    {
        let ghost data = reader.bytes();
        let mut source = reader;
        source.seek_start(0);
        let buf = source.read_exact(4)?;
        let received = four_bytes(&buf);
        let big_endian = match detect_byte_order(&received, &BIGBED_SIG) {
            Some(order) => order,
            None => {
                return Err(Error::BadSig { expected: BIGBED_SIG, received });
            },
        };
        let version = source.read_u16(big_endian)?;
        let zoom_levels = source.read_u16(big_endian)?;
        let chrom_tree_offset = source.read_u64(big_endian)?;
        let unzoomed_data_offset = source.read_u64(big_endian)?;
        let unzoomed_index_offset = source.read_u64(big_endian)?;
        let field_count = source.read_u16(big_endian)?;
        let defined_field_count = source.read_u16(big_endian)?;
        let as_offset = source.read_u64(big_endian)?;
        let total_summary_offset = source.read_u64(big_endian)?;
        let uncompress_buf_size = source.read_u32(big_endian)? as usize;
        let extension_offset = source.read_u64(big_endian)?;

        let mut level_list: Vec<ZoomLevel> = Vec::with_capacity(zoom_levels as usize);
        let mut i: u16 = 0;
        assert(level_list@ =~= zoom_levels_of(data, 0, big_endian));
        while i < zoom_levels
            invariant
                i <= zoom_levels,
                source.bytes() == data,
                source.position() == 64 + 24 * i,
                64 + 24 * i <= data.len(),
                level_list@ == zoom_levels_of(data, i as int, big_endian),
                signature_order(data.subrange(0, 4), BIGBED_SIG@) == Some(big_endian),
                zoom_levels == u16_at(data, 6, big_endian),
                data.len() >= 4,
                data == reader.bytes(),
            decreases zoom_levels - i,
        {
            let reduction_level = source.read_u32(big_endian)?;
            let reserved = source.read_u32(big_endian)?;
            let data_offset = source.read_u64(big_endian)?;
            let index_offset = source.read_u64(big_endian)?;
            level_list.push(ZoomLevel { reduction_level, reserved, data_offset, index_offset });
            assert(level_list@ =~= zoom_levels_of(data, i + 1, big_endian));
            i = i + 1;
        }

        let mut extension_size: Option<u16> = None;
        let mut extra_index_count: Option<u16> = None;
        let mut extra_index_list_offset: Option<u64> = None;
        if extension_offset != 0 {
            source.seek_start(extension_offset);
            extension_size = Some(source.read_u16(big_endian)?);
            extra_index_count = Some(source.read_u16(big_endian)?);
            extra_index_list_offset = Some(source.read_u64(big_endian)?);
        }
        source.seek_start(chrom_tree_offset);
        let chrom_bpt = BPlusTreeFile::with_reader(&mut source)?;

        Ok(
            BigBed {
                reader: source,
                big_endian,
                version,
                zoom_levels,
                chrom_tree_offset,
                unzoomed_data_offset,
                unzoomed_index_offset,
                field_count,
                defined_field_count,
                as_offset,
                total_summary_offset,
                uncompress_buf_size,
                extension_offset,
                level_list,
                extension_size,
                extra_index_count,
                extra_index_list_offset,
                chrom_bpt,
                unzoomed_cir: None,
            },
        )
    }

    /// Whether the spatial index has been read.
    pub fn is_indexed(&self) -> (indexed: bool)
        ensures
            indexed == self.index().is_some(),
    {
        self.unzoomed_cir.is_some()
    }

    /// Reads the head of the spatial index unless it has been read before.
    pub fn attach_unzoomed_cir(&mut self) -> (r: Result<(), Error>)
        ensures
            final(self).bytes() == old(self).bytes(),
            final(self).header() == old(self).header(),
            final(self).index() == index_after_attach(
                old(self).bytes(),
                old(self).header().unzoomed_index_offset,
                old(self).index(),
            ),
            old(self).wf() ==> final(self).wf(),
            match r {
                Ok(_) => attached_index(
                    old(self).bytes(),
                    old(self).header().unzoomed_index_offset,
                    old(self).index(),
                ) is Ok,
                Err(e) => attached_index(
                    old(self).bytes(),
                    old(self).header().unzoomed_index_offset,
                    old(self).index(),
                ) == Err::<CIRTreeFile, ErrorView>(e@),
            },
    {
        if self.unzoomed_cir.is_none() {
            self.reader.seek_start(self.unzoomed_index_offset);
            let tree = CIRTreeFile::with_reader(&mut self.reader)?;
            self.unzoomed_cir = Some(tree);
        }
        Ok(())
    }

    /// The data blocks that may hold records in the range from `start` to
    /// `end` on the chromosome numbered `chrom_id`, in the order in which the
    /// walk through the spatial index meets them.
    pub fn overlapping_blocks(&mut self, chrom_id: u32, start: u32, end: u32) -> (r: Result<
        Vec<FileOffsetSize>,
        Error,
    >)
        ensures
            final(self).bytes() == old(self).bytes(),
            final(self).header() == old(self).header(),
            final(self).index() == index_after_attach(
                old(self).bytes(),
                old(self).header().unzoomed_index_offset,
                old(self).index(),
            ),
            old(self).wf() ==> final(self).wf(),
            match r {
                Ok(blocks) => blocks_through_index(
                    old(self).bytes(),
                    old(self).header().unzoomed_index_offset,
                    old(self).index(),
                    chrom_id,
                    start,
                    end,
                ) == Ok::<Seq<FileOffsetSize>, ErrorView>(blocks@),
                Err(e) => blocks_through_index(
                    old(self).bytes(),
                    old(self).header().unzoomed_index_offset,
                    old(self).index(),
                    chrom_id,
                    start,
                    end,
                ) == Err::<Seq<FileOffsetSize>, ErrorView>(e@),
            },
    {
        self.attach_unzoomed_cir()?;
        match self.unzoomed_cir {
            Some(index) => index.find_blocks(chrom_id, start, end, &mut self.reader),
            None => Ok(Vec::new()),
        }
    }

    /// Every chromosome of the file.
    pub fn chrom_list(&mut self) -> (r: Result<Vec<Chrom>, Error>)
        ensures
            final(self).bytes() == old(self).bytes(),
            final(self).header() == old(self).header(),
            final(self).index() == old(self).index(),
            match r {
                Ok(chroms) => all_chroms(old(self).bytes(), old(self).header().chrom_bpt) == Ok::<
                    Seq<ChromView>,
                    ErrorView,
                >(chrom_views(chroms@)),
                Err(e) => all_chroms(old(self).bytes(), old(self).header().chrom_bpt) == Err::<
                    Seq<ChromView>,
                    ErrorView,
                >(e@),
            },
    {
        let tree = self.chrom_bpt;
        tree.chrom_list(&mut self.reader)
    }

    /// The chromosome called `chrom`, or `None` where the file has none of
    /// that name.
    pub fn find_chrom(&mut self, chrom: &str) -> (r: Result<Option<Chrom>, Error>)
        ensures
            final(self).bytes() == old(self).bytes(),
            final(self).header() == old(self).header(),
            final(self).index() == old(self).index(),
            match r {
                Ok(Some(found)) => lookup(old(self).bytes(), old(self).header().chrom_bpt, chrom@)
                    == Ok::<Option<ChromView>, ErrorView>(Some(found@)),
                Ok(None) => lookup(old(self).bytes(), old(self).header().chrom_bpt, chrom@) == Ok::<
                    Option<ChromView>,
                    ErrorView,
                >(None),
                Err(e) => lookup(old(self).bytes(), old(self).header().chrom_bpt, chrom@) == Err::<
                    Option<ChromView>,
                    ErrorView,
                >(e@),
            },
    {
        let tree = self.chrom_bpt;
        tree.find(chrom, &mut self.reader)
    }
    /// The number of the chromosome called `chrom`.
    fn resolve(&mut self, chrom: &str) -> (r: Result<u32, Error>)
        ensures
            final(self).bytes() == old(self).bytes(),
            final(self).header() == old(self).header(),
            final(self).index() == old(self).index(),
            match r {
                Ok(id) => resolve_chrom(old(self).bytes(), old(self).header().chrom_bpt, chrom@)
                    == Ok::<u32, ErrorView>(id),
                Err(e) => resolve_chrom(old(self).bytes(), old(self).header().chrom_bpt, chrom@)
                    == Err::<u32, ErrorView>(e@),
            },
    {
        match self.find_chrom(chrom)? {
            Some(found) => Ok(found.id),
            None => {
                let len = chrom.unicode_len();
                if len < 3 {
                    return Err(Error::BadChrom(chrom.to_owned()));
                }
                match self.find_chrom(chrom.substring_char(3, len))? {
                    Some(found) => Ok(found.id),
                    None => Err(Error::BadChrom(chrom.to_owned())),
                }
            },
        }
    }

    /// The lines in the range from `start` to `end` on the chromosome called
    /// `chrom`, at most `max_items` of them where that is above zero, in the
    /// order of their data blocks in the file.
    pub fn query(&mut self, chrom: &str, start: u32, end: u32, max_items: u32) -> (r: Result<
        Vec<BedLine>,
        Error,
    >)
        ensures
            final(self).bytes() == old(self).bytes(),
            final(self).header() == old(self).header(),
            final(self).index() == index_after_query(
                old(self).bytes(),
                old(self).header(),
                old(self).index(),
                chrom@,
            ),
            old(self).wf() ==> final(self).wf(),
            match r {
                Ok(lines) => query_result(
                    old(self).bytes(),
                    old(self).header(),
                    old(self).index(),
                    chrom@,
                    start,
                    end,
                    max_items,
                ) == Ok::<Seq<BedLineView>, ErrorView>(line_views(lines@)),
                Err(e) => query_result(
                    old(self).bytes(),
                    old(self).header(),
                    old(self).index(),
                    chrom@,
                    start,
                    end,
                    max_items,
                ) == Err::<Seq<BedLineView>, ErrorView>(e@),
            },
    {
        let chrom_id = self.resolve(chrom)?;
        let padded_start = if start > 0 {
            start - 1
        } else {
            start
        };
        let padded_end = if end < u32::MAX {
            end + 1
        } else {
            end
        };
        let blocks = self.overlapping_blocks(chrom_id, padded_start, padded_end)?;
        let sorted = sort_by_offset(&blocks);
        read_blocks(
            &mut self.reader,
            sorted.as_slice(),
            self.uncompress_buf_size,
            self.big_endian,
            chrom_id,
            start,
            end,
            max_items,
        )
    }
    /// The lines of the file for writing it out as text: for each
    /// chromosome, or for the one called `chrom`, the lines from `start`, or
    /// from zero, to `end`, or to the chromosome's end, at most `max_items` of
    /// them in all where a limit is given.
    pub fn to_bed(
        &mut self,
        chrom: Option<&str>,
        start: Option<u32>,
        end: Option<u32>,
        max_items: Option<u32>,
    ) -> (r: Result<Vec<ChromLines>, Error>)
        ensures
            final(self).bytes() == old(self).bytes(),
            final(self).header() == old(self).header(),
            final(self).index() == bed_result(
                old(self).bytes(),
                old(self).header(),
                old(self).index(),
                text_of(chrom),
                start,
                end,
                max_items,
            ).1,
            old(self).wf() ==> final(self).wf(),
            match r {
                Ok(groups) => bed_result(
                    old(self).bytes(),
                    old(self).header(),
                    old(self).index(),
                    text_of(chrom),
                    start,
                    end,
                    max_items,
                ).0 == Ok::<Seq<ChromLinesView>, ErrorView>(group_views(groups@)),
                Err(e) => bed_result(
                    old(self).bytes(),
                    old(self).header(),
                    old(self).index(),
                    text_of(chrom),
                    start,
                    end,
                    max_items,
                ).0 == Err::<Seq<ChromLinesView>, ErrorView>(e@),
            },
    {
        let ghost data = self.bytes();
        let ghost header = self.header();
        let ghost only = text_of(chrom);
        let ghost goal = bed_result(data, header, self.index(), only, start, end, max_items);
        let chroms = self.chrom_list()?;
        let ghost listed = chrom_views(chroms@);
        let mut groups: Vec<ChromLines> = Vec::new();
        let mut left: Option<u32> = max_items;
        let mut i: usize = 0;
        proof {
            assert(group_views(groups@) =~= Seq::<ChromLinesView>::empty());
            lemma_then_extend_empty(
                Seq::<ChromLinesView>::empty(),
                bed_from(
                    data,
                    header,
                    self.index(),
                    listed,
                    0,
                    only,
                    start,
                    end,
                    room_of(left),
                ).0,
            );
        }
        while i < chroms.len()
            invariant
                i <= chroms.len(),
                self.bytes() == data,
                self.header() == header,
                data == old(self).bytes(),
                header == old(self).header(),
                old(self).wf() ==> self.wf(),
                only == text_of(chrom),
                listed == chrom_views(chroms@),
                goal == bed_result(data, header, old(self).index(), only, start, end, max_items),
                goal.0 == then_extend(
                    group_views(groups@),
                    bed_from(
                        data,
                        header,
                        self.index(),
                        listed,
                        i as int,
                        only,
                        start,
                        end,
                        room_of(left),
                    ).0,
                ),
                goal.1 == bed_from(
                    data,
                    header,
                    self.index(),
                    listed,
                    i as int,
                    only,
                    start,
                    end,
                    room_of(left),
                ).1,
            decreases chroms.len() - i,
        {
            let stored = chroms[i].name.as_str();
            let shown = strip_null(stored);
            let wanted = match chrom {
                Some(name) => same_text(name, shown),
                None => true,
            };
            assert(listed[i as int] == chroms@[i as int]@);
            assert(wanted == !left_out(only, listed[i as int].name));
            if wanted {
                let from = match start {
                    Some(value) => value,
                    None => 0,
                };
                let to = match end {
                    Some(value) => value,
                    None => chroms[i].size,
                };
                let limit = match left {
                    Some(value) => value,
                    None => 0,
                };
                if left == Some(0u32) {
                    proof {
                        lemma_then_extend_empty(
                            group_views(groups@),
                            Ok::<Seq<ChromLinesView>, ErrorView>(Seq::empty()),
                        );
                    }
                    return Ok(groups);
                }
                let ghost before = groups@;
                let ghost room = room_of(left);
                let lines = self.query(stored, from, to, limit)?;
                let used = lines.len();
                left = match left {
                    Some(value) => if used >= value as usize {
                        Some(0)
                    } else {
                        Some(value - used as u32)
                    },
                    None => None,
                };
                assert(room_of(left) == room_after(room, lines@.len() as int));
                let group = ChromLines { name: shown.to_owned(), lines };
                groups.push(group);
                proof {
                    let one = seq![
                        ChromLinesView { name: stripped(listed[i as int].name), lines: line_views(lines@) },
                    ];
                    assert(group_views(groups@) =~= group_views(before) + one);
                    lemma_then_extend_twice(
                        group_views(before),
                        one,
                        bed_from(
                            data,
                            header,
                            self.index(),
                            listed,
                            i + 1,
                            only,
                            start,
                            end,
                            room_of(left),
                        ).0,
                    );
                }
            }
            i = i + 1;
        }
        proof {
            lemma_then_extend_empty(
                group_views(groups@),
                Ok::<Seq<ChromLinesView>, ErrorView>(Seq::empty()),
            );
        }
        Ok(groups)
    }
}

} // verus!
