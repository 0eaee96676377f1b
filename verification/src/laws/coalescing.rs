//! Laws of sorting data blocks and of reading them in runs.

use vstd::prelude::*;
use vstd::seq_lib::to_multiset_build;
use crate::blocks::{block_bytes, collect_records, first_gap, insert_by_offset, lemma_gap_bounds, run_in_file, run_records, sorted_by_offset};
use crate::cirtree::FileOffsetSize;
use crate::error::{lemma_then_extend_empty, lemma_then_extend_twice, then_extend};
use crate::records::{block_records, room_after, BedLineView};

verus! {

/// Whether every block lies within the file.
pub open spec fn blocks_in_file(data: Seq<u8>, blocks: Seq<FileOffsetSize>) -> bool {
    forall|i: int|
        0 <= i < blocks.len() ==> (#[trigger] blocks[i]).offset + blocks[i].size <= data.len()
}

/// Taking lines twice from a room leaves what taking them at once leaves.
pub proof fn lemma_room_after_twice(room: Option<nat>, first: int, second: int)
    requires
        first >= 0,
        second >= 0,
    ensures
        room_after(room_after(room, first), second) == room_after(room, first + second),
        room_after(room, 0) == room,
{
}

/// The lines of a list of blocks from index `from` on are the lines of its
/// first `upto` blocks from there on, followed by the lines from index `upto`
/// on in the room that is left.
pub proof fn lemma_run_records_split(
    data: Seq<u8>,
    blocks: Seq<FileOffsetSize>,
    from: int,
    upto: int,
    buf_size: nat,
    big_endian: bool,
    chrom_id: u32,
    start: u32,
    end: u32,
    room: Option<nat>,
)
    requires
        0 <= from <= upto <= blocks.len(),
    ensures
        run_records(
            data,
            blocks,
            from,
            buf_size,
            big_endian,
            chrom_id,
            start,
            end,
            room,
        ) == match run_records(
            data,
            blocks.take(upto),
            from,
            buf_size,
            big_endian,
            chrom_id,
            start,
            end,
            room,
        ) {
            Err(e) => Err(e),
            Ok(lines) => then_extend(
                lines,
                run_records(
                    data,
                    blocks,
                    upto,
                    buf_size,
                    big_endian,
                    chrom_id,
                    start,
                    end,
                    room_after(room, lines.len() as int),
                ),
            ),
        },
    decreases upto - from,
{
    let head = blocks.take(upto);
    if from == upto || room == Some(0nat) {
        lemma_room_after_twice(room, 0, 0);
        lemma_then_extend_empty(
            Seq::<BedLineView>::empty(),
            run_records(data, blocks, upto, buf_size, big_endian, chrom_id, start, end, room),
        );
    } else {
        assert(head[from] == blocks[from]);
        match block_records(
            block_bytes(data, blocks[from]),
            buf_size,
            big_endian,
            chrom_id,
            start,
            end,
            room,
        ) {
            Err(_) => {},
            Ok(first) => {
                let left = room_after(room, first.len() as int);
                lemma_run_records_split(
                    data,
                    blocks,
                    from + 1,
                    upto,
                    buf_size,
                    big_endian,
                    chrom_id,
                    start,
                    end,
                    left,
                );
                match run_records(
                    data,
                    head,
                    from + 1,
                    buf_size,
                    big_endian,
                    chrom_id,
                    start,
                    end,
                    left,
                ) {
                    Err(_) => {},
                    Ok(second) => {
                        lemma_room_after_twice(room, first.len() as int, second.len() as int);
                        lemma_then_extend_twice(
                            first,
                            second,
                            run_records(
                                data,
                                blocks,
                                upto,
                                buf_size,
                                big_endian,
                                chrom_id,
                                start,
                                end,
                                room_after(left, second.len() as int),
                            ),
                        );
                    },
                }
            },
        }
    }
}

/// The lines of a list of blocks from index `skipped + from` on are the
/// lines of the list without its first `skipped` blocks from index `from` on.
pub proof fn lemma_run_records_shift(
    data: Seq<u8>,
    blocks: Seq<FileOffsetSize>,
    skipped: int,
    from: int,
    buf_size: nat,
    big_endian: bool,
    chrom_id: u32,
    start: u32,
    end: u32,
    room: Option<nat>,
)
    requires
        0 <= skipped <= blocks.len(),
        0 <= from,
    ensures
        run_records(
            data,
            blocks,
            skipped + from,
            buf_size,
            big_endian,
            chrom_id,
            start,
            end,
            room,
        ) == run_records(
            data,
            blocks.skip(skipped),
            from,
            buf_size,
            big_endian,
            chrom_id,
            start,
            end,
            room,
        ),
    decreases blocks.len() - skipped - from,
{
    let tail = blocks.skip(skipped);
    if skipped + from < blocks.len() && room != Some(0nat) {
        assert(tail[from] == blocks[skipped + from]);
        match block_records(
            block_bytes(data, blocks[skipped + from]),
            buf_size,
            big_endian,
            chrom_id,
            start,
            end,
            room,
        ) {
            Err(_) => {},
            Ok(first) => {
                lemma_run_records_shift(
                    data,
                    blocks,
                    skipped,
                    from + 1,
                    buf_size,
                    big_endian,
                    chrom_id,
                    start,
                    end,
                    room_after(room, first.len() as int),
                );
            },
        }
    }
}

/// Merging blocks into runs does not show in the answer: where every block
/// lies within the file, the lines taken run by run are the lines taken
/// block by block, however the blocks fall into runs.
pub proof fn law_coalescing_is_transparent(
    data: Seq<u8>,
    blocks: Seq<FileOffsetSize>,
    buf_size: nat,
    big_endian: bool,
    chrom_id: u32,
    start: u32,
    end: u32,
    room: Option<nat>,
)
    requires
        blocks_in_file(data, blocks),
    ensures
        collect_records(data, blocks, buf_size, big_endian, chrom_id, start, end, room)
            == run_records(data, blocks, 0, buf_size, big_endian, chrom_id, start, end, room),
    decreases blocks.len(),
{
    if blocks.len() > 0 && room != Some(0nat) {
        lemma_gap_bounds(blocks, 0);
        let cut = first_gap(blocks);
        let run = blocks.take(cut);
        let rest = blocks.skip(cut);
        assert(run.last() == blocks[cut - 1]);
        assert(run_in_file(data, run));
        lemma_run_records_split(
            data,
            blocks,
            0,
            cut,
            buf_size,
            big_endian,
            chrom_id,
            start,
            end,
            room,
        );
        match run_records(data, run, 0, buf_size, big_endian, chrom_id, start, end, room) {
            Err(_) => {},
            Ok(lines) => {
                let left = room_after(room, lines.len() as int);
                assert forall|i: int| 0 <= i < rest.len() implies (#[trigger] rest[i]).offset
                    + rest[i].size <= data.len() by {
                    assert(rest[i] == blocks[cut + i]);
                }
                law_coalescing_is_transparent(
                    data,
                    rest,
                    buf_size,
                    big_endian,
                    chrom_id,
                    start,
                    end,
                    left,
                );
                lemma_run_records_shift(
                    data,
                    blocks,
                    cut,
                    0,
                    buf_size,
                    big_endian,
                    chrom_id,
                    start,
                    end,
                    left,
                );
            },
        }
    }
}

/// The lines depend on the bytes of the blocks alone, not on where the
/// blocks lie: two lists of blocks with the same bytes, in two files or in
/// two layouts of one, give the same lines.
pub proof fn law_lines_depend_on_block_bytes_alone(
    data: Seq<u8>,
    blocks: Seq<FileOffsetSize>,
    other_data: Seq<u8>,
    other_blocks: Seq<FileOffsetSize>,
    from: int,
    buf_size: nat,
    big_endian: bool,
    chrom_id: u32,
    start: u32,
    end: u32,
    room: Option<nat>,
)
    requires
        blocks.len() == other_blocks.len(),
        forall|i: int|
            0 <= i < blocks.len() ==> block_bytes(data, #[trigger] blocks[i]) == block_bytes(
                other_data,
                other_blocks[i],
            ),
    ensures
        run_records(data, blocks, from, buf_size, big_endian, chrom_id, start, end, room)
            == run_records(
            other_data,
            other_blocks,
            from,
            buf_size,
            big_endian,
            chrom_id,
            start,
            end,
            room,
        ),
    decreases blocks.len() - from,
{
    if 0 <= from < blocks.len() && room != Some(0nat) {
        assert(block_bytes(data, blocks[from]) == block_bytes(other_data, other_blocks[from]));
        match block_records(
            block_bytes(data, blocks[from]),
            buf_size,
            big_endian,
            chrom_id,
            start,
            end,
            room,
        ) {
            Err(_) => {},
            Ok(first) => {
                law_lines_depend_on_block_bytes_alone(
                    data,
                    blocks,
                    other_data,
                    other_blocks,
                    from + 1,
                    buf_size,
                    big_endian,
                    chrom_id,
                    start,
                    end,
                    room_after(room, first.len() as int),
                );
            },
        }
    }
}

/// Whether no block starts before a block that stands in front of it.
pub open spec fn ascending(blocks: Seq<FileOffsetSize>) -> bool {
    forall|i: int, j: int| 0 <= i <= j < blocks.len() ==> blocks[i].offset <= blocks[j].offset
}

/// Putting a block into an ascending list keeps the list ascending and adds
/// that block to it, nothing else.
pub proof fn lemma_insert_keeps_order(sorted: Seq<FileOffsetSize>, block: FileOffsetSize)
    requires
        ascending(sorted),
    ensures
        ascending(insert_by_offset(sorted, block)),
        insert_by_offset(sorted, block).to_multiset() == sorted.to_multiset().insert(block),
        forall|k: int|
            0 <= k < insert_by_offset(sorted, block).len() ==> insert_by_offset(sorted, block)[k]
                == block || sorted.contains(#[trigger] insert_by_offset(sorted, block)[k]),
    decreases sorted.len(),
{
    let out = insert_by_offset(sorted, block);
    if sorted.len() == 0 {
        to_multiset_build(sorted, block);
        assert(out =~= sorted.push(block));
    } else if sorted.last().offset <= block.offset {
        to_multiset_build(sorted, block);
        assert forall|k: int| 0 <= k < out.len() implies out[k] == block || sorted.contains(
            #[trigger] out[k],
        ) by {
            if k < sorted.len() {
                assert(sorted[k] == out[k]);
            }
        }
    } else {
        let front = sorted.drop_last();
        let inner = insert_by_offset(front, block);
        assert(ascending(front));
        lemma_insert_keeps_order(front, block);
        to_multiset_build(inner, sorted.last());
        to_multiset_build(front, sorted.last());
        assert(front.push(sorted.last()) =~= sorted);
        assert(out.to_multiset() =~= sorted.to_multiset().insert(block));
        assert forall|k: int| 0 <= k < out.len() implies out[k] == block || sorted.contains(
            #[trigger] out[k],
        ) by {
            if k < inner.len() {
                if inner[k] != block {
                    assert(front.contains(inner[k]));
                    let at = choose|at: int| 0 <= at < front.len() && front[at] == inner[k];
                    assert(sorted[at] == out[k]);
                }
            } else {
                assert(sorted[sorted.len() - 1] == out[k]);
            }
        }
        assert forall|i: int, j: int| 0 <= i <= j < out.len() implies out[i].offset
            <= out[j].offset by {
            if j == out.len() - 1 && i < j {
                if inner[i] != block {
                    assert(front.contains(inner[i]));
                    let at = choose|at: int| 0 <= at < front.len() && front[at] == inner[i];
                    assert(sorted[at].offset <= sorted[sorted.len() - 1].offset);
                }
            }
        }
    }
}

/// Sorting gives the same blocks, each as often as it came, in ascending
/// order of their offsets.
pub proof fn law_sorted_blocks_ascend(blocks: Seq<FileOffsetSize>)
    ensures
        ascending(sorted_by_offset(blocks)),
        sorted_by_offset(blocks).to_multiset() == blocks.to_multiset(),
    decreases blocks.len(),
{
    if blocks.len() > 0 {
        let front = blocks.drop_last();
        law_sorted_blocks_ascend(front);
        lemma_insert_keeps_order(sorted_by_offset(front), blocks.last());
        to_multiset_build(front, blocks.last());
        assert(front.push(blocks.last()) =~= blocks);
    }
}

} // verus!
