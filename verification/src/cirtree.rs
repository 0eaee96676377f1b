//! The spatial index: an R-tree in the file whose leaves point to the data
//! blocks, each entry with the range of positions that lies below it.

use vstd::prelude::*;
use crate::byteorder::{decode_u32, decode_u64, detect_byte_order, four_bytes, signature_order, u32_at, u64_at};
use crate::error::{eof_error, lemma_then_extend_empty, lemma_then_extend_twice, misc_error, seek_error, then_extend, Error, ErrorView};
use crate::node::{node_at, read_node, BLOCK_REVISITED};
use crate::reader::ByteReader;

verus! {

/// The signature that opens the spatial index, as a big-endian file has it.
pub const CIRTREE_SIG: [u8; 4] = [0x24, 0x68, 0xAC, 0xE0];

/// The width of an entry of a leaf: four bounds, an offset and a size.
pub const LEAF_ENTRY_WIDTH: u64 = 32;

/// The width of an entry of an inner block: four bounds and an offset.
pub const INNER_ENTRY_WIDTH: u64 = 24;

/// Where a data block lies in the file.
#[derive(Debug, Clone, Copy, PartialEq, Eq, Structural)]
pub struct FileOffsetSize {
    pub offset: usize,
    pub size: usize,
}

/// The head of the spatial index.
#[derive(Debug, Clone, Copy, PartialEq, Eq, Structural)]
pub struct CIRTreeFile {
    pub big_endian: bool,
    pub block_size: u32,
    pub item_count: u64,
    pub start_chrom_ix: u32,
    pub start_base: u32,
    pub end_chrom_ix: u32,
    pub end_base: u32,
    pub file_size: u64,
    pub items_per_slot: u32,
    /// Where the root block starts.
    pub root_offset: u64,
}

/// The positions below an entry: from `start_base` on chromosome
/// `start_chrom` up to, not including, `end_base` on chromosome `end_chrom`.
pub struct Bounds {
    pub start_chrom: u32,
    pub start_base: u32,
    pub end_chrom: u32,
    pub end_base: u32,
}

/// An entry of a leaf.
pub struct LeafEntry {
    pub bounds: Bounds,
    pub offset: u64,
    pub size: u64,
}

/// An entry of an inner block.
pub struct InnerEntry {
    pub bounds: Bounds,
    pub child: u64,
}

/// Whether position `base_a` on chromosome `chrom_a` comes before position
/// `base_b` on chromosome `chrom_b`.
pub open spec fn position_before(chrom_a: u32, base_a: u32, chrom_b: u32, base_b: u32) -> bool {
    chrom_a < chrom_b || (chrom_a == chrom_b && base_a < base_b)
}

/// Whether the range from `start` to `end` on chromosome `chrom_id` meets
/// the bounds: it starts before they end and ends after they start.
pub open spec fn overlaps(chrom_id: u32, start: u32, end: u32, bounds: Bounds) -> bool {
    position_before(chrom_id, start, bounds.end_chrom, bounds.end_base) && position_before(
        bounds.start_chrom,
        bounds.start_base,
        chrom_id,
        end,
    )
}

/// Decides whether a range meets the bounds of an entry.
pub fn cir_overlaps(
    q_chrom: u32,
    q_start: u32,
    q_end: u32,
    start_chrom: u32,
    start_base: u32,
    end_chrom: u32,
    end_base: u32,
) -> (hit: bool)
    ensures
        hit == overlaps(
            q_chrom,
            q_start,
            q_end,
            (Bounds { start_chrom, start_base, end_chrom, end_base }),
        ),
{
    (q_chrom < end_chrom || (q_chrom == end_chrom && q_start < end_base)) && (start_chrom < q_chrom
        || (start_chrom == q_chrom && start_base < q_end))
}

/// The bounds that start at index `at` of `body`.
pub open spec fn bounds_at(body: Seq<u8>, at: int, big_endian: bool) -> Bounds {
    Bounds {
        start_chrom: u32_at(body, at, big_endian),
        start_base: u32_at(body, at + 4, big_endian),
        end_chrom: u32_at(body, at + 8, big_endian),
        end_base: u32_at(body, at + 12, big_endian),
    }
}

/// Entry `i` of a leaf.
pub open spec fn leaf_entry(body: Seq<u8>, big_endian: bool, i: int) -> LeafEntry {
    LeafEntry {
        bounds: bounds_at(body, i * 32, big_endian),
        offset: u64_at(body, i * 32 + 16, big_endian),
        size: u64_at(body, i * 32 + 24, big_endian),
    }
}

/// Entry `i` of an inner block.
pub open spec fn inner_entry(body: Seq<u8>, big_endian: bool, i: int) -> InnerEntry {
    InnerEntry {
        bounds: bounds_at(body, i * 24, big_endian),
        child: u64_at(body, i * 24 + 16, big_endian),
    }
}

/// The entries of a leaf, in order.
pub open spec fn leaf_entries(body: Seq<u8>, big_endian: bool, count: int) -> Seq<LeafEntry> {
    Seq::new(count as nat, |i: int| leaf_entry(body, big_endian, i))
}

/// The entries of an inner block, in order.
pub open spec fn inner_entries(body: Seq<u8>, big_endian: bool, count: int) -> Seq<InnerEntry> {
    Seq::new(count as nat, |i: int| inner_entry(body, big_endian, i))
}

/// Whether the offset and the size of an entry fit a `usize`.
pub open spec fn entry_fits(entry: LeafEntry) -> bool {
    entry.offset <= usize::MAX && entry.size <= usize::MAX
}

/// Whether every entry fits.
pub open spec fn entries_fit(entries: Seq<LeafEntry>) -> bool {
    forall|i: int| 0 <= i < entries.len() ==> entry_fits(#[trigger] entries[i])
}

/// The test of a leaf entry against a range.
pub open spec fn leaf_hit(chrom_id: u32, start: u32, end: u32) -> spec_fn(LeafEntry) -> bool {
    |entry: LeafEntry| overlaps(chrom_id, start, end, entry.bounds)
}

/// The test of an inner entry against a range.
pub open spec fn inner_hit(chrom_id: u32, start: u32, end: u32) -> spec_fn(InnerEntry) -> bool {
    |entry: InnerEntry| overlaps(chrom_id, start, end, entry.bounds)
}

/// The data block that a leaf entry points to.
pub open spec fn entry_block() -> spec_fn(LeafEntry) -> FileOffsetSize {
    |entry: LeafEntry| FileOffsetSize { offset: entry.offset as usize, size: entry.size as usize }
}

/// The block that an inner entry points to.
pub open spec fn entry_child() -> spec_fn(InnerEntry) -> u64 {
    |entry: InnerEntry| entry.child
}

/// The data blocks of those entries that meet the range, in the order of the
/// entries.
pub open spec fn hit_blocks(entries: Seq<LeafEntry>, chrom_id: u32, start: u32, end: u32) -> Seq<
    FileOffsetSize,
> {
    entries.filter(leaf_hit(chrom_id, start, end)).map_values(entry_block())
}

/// The children of those entries that meet the range, in the order of the
/// entries.
pub open spec fn hit_children(entries: Seq<InnerEntry>, chrom_id: u32, start: u32, end: u32) -> Seq<
    u64,
> {
    entries.filter(inner_hit(chrom_id, start, end)).map_values(entry_child())
}

/// The data blocks found by working off the blocks in `pending`, last one
/// first, visiting at most `fuel` blocks: a leaf gives the data blocks of
/// its entries that meet the range, an inner block puts the children of its
/// entries that meet the range on the list.
pub open spec fn walk_blocks(
    data: Seq<u8>,
    tree: CIRTreeFile,
    chrom_id: u32,
    start: u32,
    end: u32,
    pending: Seq<u64>,
    fuel: nat,
) -> Result<Seq<FileOffsetSize>, ErrorView>
    decreases fuel,
{
    if pending.len() == 0 {
        Ok(Seq::empty())
    } else if fuel == 0 {
        Err(misc_error(BLOCK_REVISITED))
    } else {
        match node_at(data, pending.last() as int, 32, 24, tree.big_endian) {
            Err(e) => Err(e),
            Ok(node) => if node.is_leaf {
                let entries = leaf_entries(node.body, tree.big_endian, node.count);
                if !entries_fit(entries) {
                    Err(ErrorView::ConversionError)
                } else {
                    then_extend(
                        hit_blocks(entries, chrom_id, start, end),
                        walk_blocks(
                            data,
                            tree,
                            chrom_id,
                            start,
                            end,
                            pending.drop_last(),
                            (fuel - 1) as nat,
                        ),
                    )
                }
            } else {
                walk_blocks(
                    data,
                    tree,
                    chrom_id,
                    start,
                    end,
                    pending.drop_last() + hit_children(
                        inner_entries(node.body, tree.big_endian, node.count),
                        chrom_id,
                        start,
                        end,
                    ),
                    (fuel - 1) as nat,
                )
            },
        }
    }
}

/// The data blocks that may hold records in the range from `start` to `end`
/// on chromosome `chrom_id`.
pub open spec fn blocks_for(data: Seq<u8>, tree: CIRTreeFile, chrom_id: u32, start: u32, end: u32)
    -> Result<Seq<FileOffsetSize>, ErrorView> {
    walk_blocks(data, tree, chrom_id, start, end, seq![tree.root_offset], data.len())
}

/// The head of a spatial index that starts at offset `at` of `data`.
pub open spec fn cir_header_at(data: Seq<u8>, at: int) -> Result<CIRTreeFile, ErrorView> {
    if at + 4 > data.len() {
        Err(eof_error())
    } else {
        match signature_order(data.subrange(at, at + 4), CIRTREE_SIG@) {
            None => Err(
                ErrorView::BadSig { expected: CIRTREE_SIG@, received: data.subrange(at, at + 4) },
            ),
            Some(big_endian) => if at + 44 > data.len() {
                Err(eof_error())
            } else if at + 48 > u64::MAX {
                Err(seek_error())
            } else {
                Ok(
                    CIRTreeFile {
                        big_endian,
                        block_size: u32_at(data, at + 4, big_endian),
                        item_count: u64_at(data, at + 8, big_endian),
                        start_chrom_ix: u32_at(data, at + 16, big_endian),
                        start_base: u32_at(data, at + 20, big_endian),
                        end_chrom_ix: u32_at(data, at + 24, big_endian),
                        end_base: u32_at(data, at + 28, big_endian),
                        file_size: u64_at(data, at + 32, big_endian),
                        items_per_slot: u32_at(data, at + 40, big_endian),
                        root_offset: (at + 48) as u64,
                    },
                )
            },
        }
    }
}

/// Puts the data blocks of a leaf that meet the range on `blocks`.
fn push_hit_blocks(
    body: &[u8],
    big_endian: bool,
    count: u16,
    chrom_id: u32,
    start: u32,
    end: u32,
    blocks: &mut Vec<FileOffsetSize>,
) -> (r: Result<(), Error>)
    requires
        body@.len() == count * 32,
    ensures
        match r {
            Ok(_) => entries_fit(leaf_entries(body@, big_endian, count as int)) && final(blocks)@
                == old(blocks)@ + hit_blocks(
                leaf_entries(body@, big_endian, count as int),
                chrom_id,
                start,
                end,
            ),
            Err(e) => !entries_fit(leaf_entries(body@, big_endian, count as int)) && e@
                == ErrorView::ConversionError,
        },
{
    let ghost entries = leaf_entries(body@, big_endian, count as int);
    let ghost hit = leaf_hit(chrom_id, start, end);
    let mut i: u16 = 0;
    proof {
        reveal(Seq::filter);
        assert(entries.take(0).filter(hit).map_values(entry_block()) =~= Seq::<
            FileOffsetSize,
        >::empty());
        assert(blocks@ =~= old(blocks)@ + hit_blocks(entries.take(0), chrom_id, start, end));
    }
    while i < count
        invariant
            i <= count,
            body@.len() == count * 32,
            body.len() == body@.len(),
            entries == leaf_entries(body@, big_endian, count as int),
            hit == leaf_hit(chrom_id, start, end),
            entries_fit(entries.take(i as int)),
            blocks@ == old(blocks)@ + hit_blocks(entries.take(i as int), chrom_id, start, end),
        decreases count - i,
    {
        let at: usize = i as usize * 32;
        let start_chrom = decode_u32(body, at, big_endian);
        let start_base = decode_u32(body, at + 4, big_endian);
        let end_chrom = decode_u32(body, at + 8, big_endian);
        let end_base = decode_u32(body, at + 12, big_endian);
        let raw_offset = decode_u64(body, at + 16, big_endian);
        let raw_size = decode_u64(body, at + 24, big_endian);
        let ghost entry = entries[i as int];
        assert(entry == leaf_entry(body@, big_endian, i as int));
        let offset = match usize::try_from(raw_offset) {
            Ok(offset) => offset,
            Err(e) => {
                assert(!entry_fits(entry));
                return Err(Error::ConversionError(e));
            },
        };
        let size = match usize::try_from(raw_size) {
            Ok(size) => size,
            Err(e) => {
                assert(!entry_fits(entry));
                return Err(Error::ConversionError(e));
            },
        };
        let is_hit = cir_overlaps(
            chrom_id,
            start,
            end,
            start_chrom,
            start_base,
            end_chrom,
            end_base,
        );
        let ghost before = blocks@;
        if is_hit {
            blocks.push(FileOffsetSize { offset, size });
        }
        proof {
            let prefix = entries.take(i as int);
            prefix.lemma_filter_push(entry, hit);
            entries.lemma_take_succ_push(i as int);
            prefix.filter(hit).lemma_push_map_commute(entry_block(), entry);
            assert(entries.take(i + 1) == prefix.push(entry));
            assert(hit(entry) == is_hit);
            assert(entry_block()(entry) == (FileOffsetSize { offset, size }));
            if is_hit {
                assert(blocks@ =~= old(blocks)@ + hit_blocks(
                    entries.take(i + 1),
                    chrom_id,
                    start,
                    end,
                ));
            }
            assert forall|j: int| 0 <= j < i + 1 implies entry_fits(
                #[trigger] entries.take(i + 1)[j],
            ) by {
                if j < i {
                    assert(entries.take(i + 1)[j] == prefix[j]);
                }
            }
        }
        i = i + 1;
    }
    assert(entries.take(count as int) =~= entries);
    Ok(())
}

/// Puts the children of an inner block that meet the range on `pending`.
fn push_hit_children(
    body: &[u8],
    big_endian: bool,
    count: u16,
    chrom_id: u32,
    start: u32,
    end: u32,
    pending: &mut Vec<u64>,
)
    requires
        body@.len() == count * 24,
    ensures
        final(pending)@ == old(pending)@ + hit_children(
            inner_entries(body@, big_endian, count as int),
            chrom_id,
            start,
            end,
        ),
{
    let ghost entries = inner_entries(body@, big_endian, count as int);
    let ghost hit = inner_hit(chrom_id, start, end);
    let mut i: u16 = 0;
    proof {
        reveal(Seq::filter);
        assert(entries.take(0).filter(hit).map_values(entry_child()) =~= Seq::<u64>::empty());
        assert(pending@ =~= old(pending)@ + hit_children(entries.take(0), chrom_id, start, end));
    }
    while i < count
        invariant
            i <= count,
            body@.len() == count * 24,
            body.len() == body@.len(),
            entries == inner_entries(body@, big_endian, count as int),
            hit == inner_hit(chrom_id, start, end),
            pending@ == old(pending)@ + hit_children(entries.take(i as int), chrom_id, start, end),
        decreases count - i,
    {
        let at: usize = i as usize * 24;
        let start_chrom = decode_u32(body, at, big_endian);
        let start_base = decode_u32(body, at + 4, big_endian);
        let end_chrom = decode_u32(body, at + 8, big_endian);
        let end_base = decode_u32(body, at + 12, big_endian);
        let child = decode_u64(body, at + 16, big_endian);
        let ghost entry = entries[i as int];
        assert(entry == inner_entry(body@, big_endian, i as int));
        let is_hit = cir_overlaps(
            chrom_id,
            start,
            end,
            start_chrom,
            start_base,
            end_chrom,
            end_base,
        );
        if is_hit {
            pending.push(child);
        }
        proof {
            let prefix = entries.take(i as int);
            prefix.lemma_filter_push(entry, hit);
            entries.lemma_take_succ_push(i as int);
            prefix.filter(hit).lemma_push_map_commute(entry_child(), entry);
            assert(entries.take(i + 1) == prefix.push(entry));
            assert(hit(entry) == is_hit);
            assert(entry_child()(entry) == child);
            if is_hit {
                assert(pending@ =~= old(pending)@ + hit_children(
                    entries.take(i + 1),
                    chrom_id,
                    start,
                    end,
                ));
            }
        }
        i = i + 1;
    }
    assert(entries.take(count as int) =~= entries);
}

impl CIRTreeFile {
    /// Reads the head of a spatial index at the reader's position: the
    /// signature, which fixes the byte order, eight fields, and 4 unused bytes,
    /// after which the root block starts.
    pub fn with_reader(reader: &mut ByteReader) -> (r: Result<CIRTreeFile, Error>)
        ensures
            final(reader).bytes() == old(reader).bytes(),
            match r {
                Ok(tree) => cir_header_at(old(reader).bytes(), old(reader).position() as int)
                    == Ok::<CIRTreeFile, ErrorView>(tree),
                Err(e) => cir_header_at(old(reader).bytes(), old(reader).position() as int)
                    == Err::<CIRTreeFile, ErrorView>(e@),
            },
    {
        let buf = reader.read_exact(4)?;
        let received = four_bytes(&buf);
        let big_endian = match detect_byte_order(&received, &CIRTREE_SIG) {
            Some(order) => order,
            None => {
                return Err(Error::BadSig { expected: CIRTREE_SIG, received });
            },
        };
        let block_size = reader.read_u32(big_endian)?;
        let item_count = reader.read_u64(big_endian)?;
        let start_chrom_ix = reader.read_u32(big_endian)?;
        let start_base = reader.read_u32(big_endian)?;
        let end_chrom_ix = reader.read_u32(big_endian)?;
        let end_base = reader.read_u32(big_endian)?;
        let file_size = reader.read_u64(big_endian)?;
        let items_per_slot = reader.read_u32(big_endian)?;
        let root_offset = reader.seek_current(4)?;
        Ok(
            CIRTreeFile {
                big_endian,
                block_size,
                item_count,
                start_chrom_ix,
                start_base,
                end_chrom_ix,
                end_base,
                file_size,
                items_per_slot,
                root_offset,
            },
        )
    }

    /// The data blocks that may hold records in the range from `start` to
    /// `end` on chromosome `chrom_id`, gathered by working off a list of
    /// blocks still to visit, which starts with the root. A walk that visits
    /// more blocks than the file has bytes is given up.
    pub fn find_blocks(&self, chrom_id: u32, start: u32, end: u32, reader: &mut ByteReader) -> (r:
        Result<Vec<FileOffsetSize>, Error>)
        ensures
            final(reader).bytes() == old(reader).bytes(),
            match r {
                Ok(blocks) => blocks_for(old(reader).bytes(), *self, chrom_id, start, end) == Ok::<
                    Seq<FileOffsetSize>,
                    ErrorView,
                >(blocks@),
                Err(e) => blocks_for(old(reader).bytes(), *self, chrom_id, start, end) == Err::<
                    Seq<FileOffsetSize>,
                    ErrorView,
                >(e@),
            },
    {
        let ghost data = reader.bytes();
        let ghost goal = blocks_for(data, *self, chrom_id, start, end);
        let mut blocks: Vec<FileOffsetSize> = Vec::new();
        let mut pending: Vec<u64> = Vec::new();
        pending.push(self.root_offset);
        let mut fuel: usize = reader.len();
        proof {
            assert(pending@ =~= seq![self.root_offset]);
            assert(blocks@ =~= Seq::<FileOffsetSize>::empty());
            lemma_then_extend_empty(Seq::<FileOffsetSize>::empty(), goal);
        }
        while pending.len() > 0
            invariant
                reader.bytes() == data,
                data == old(reader).bytes(),
                goal == blocks_for(data, *self, chrom_id, start, end),
                goal == then_extend(
                    blocks@,
                    walk_blocks(data, *self, chrom_id, start, end, pending@, fuel as nat),
                ),
            decreases fuel,
        {
            if fuel == 0 {
                return Err(Error::Misc(BLOCK_REVISITED));
            }
            fuel = fuel - 1;
            let ghost before_pending = pending@;
            let at = pending.pop().unwrap();
            assert(pending@ == before_pending.drop_last());
            let node = match read_node(
                reader,
                at,
                LEAF_ENTRY_WIDTH,
                INNER_ENTRY_WIDTH,
                self.big_endian,
            ) {
                Ok(node) => node,
                Err(e) => {
                    return Err(e);
                },
            };
            if node.is_leaf {
                let ghost before = blocks@;
                match push_hit_blocks(
                    node.body.as_slice(),
                    self.big_endian,
                    node.count,
                    chrom_id,
                    start,
                    end,
                    &mut blocks,
                ) {
                    Ok(_) => {},
                    Err(e) => {
                        return Err(e);
                    },
                }
                proof {
                    lemma_then_extend_twice(
                        before,
                        hit_blocks(
                            leaf_entries(node.body@, self.big_endian, node.count as int),
                            chrom_id,
                            start,
                            end,
                        ),
                        walk_blocks(data, *self, chrom_id, start, end, pending@, fuel as nat),
                    );
                }
            } else {
                push_hit_children(
                    node.body.as_slice(),
                    self.big_endian,
                    node.count,
                    chrom_id,
                    start,
                    end,
                    &mut pending,
                );
            }
        }
        Ok(blocks)
    }
}

} // verus!
