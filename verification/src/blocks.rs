//! Fetching data blocks: blocks that follow one another in the file without
//! a gap are read in one go.

use vstd::prelude::*;
use vstd::slice::slice_subrange;
use crate::cirtree::FileOffsetSize;
use crate::error::{eof_error, lemma_then_extend_empty, lemma_then_extend_twice, then_extend, Error, ErrorView, IOErrorWrapper, IoErrorKind};
use crate::inflate::{inflate_block, inflater_view, new_inflater, InflaterView};
use crate::reader::ByteReader;
use crate::records::{block_records, decode_block, lemma_views_grow, line_views, room_after, room_left, BedLine, BedLineView};

verus! {

/// Whether block `b` starts where block `a` ends.
pub open spec fn adjoins(a: FileOffsetSize, b: FileOffsetSize) -> bool {
    b.offset == a.offset + a.size
}

/// Whether the block after block `i` starts where block `i` ends.
pub open spec fn adjoins_next(blocks: Seq<FileOffsetSize>, i: int) -> bool {
    adjoins(blocks[i], blocks[i + 1])
}

/// Whether each block of the sequence starts where the one before it ends.
pub open spec fn is_run(blocks: Seq<FileOffsetSize>) -> bool {
    forall|i: int| 0 <= i < blocks.len() - 1 ==> #[trigger] adjoins_next(blocks, i)
}

/// The index of the first block after `from` that does not start where the
/// one before it ends, or the number of blocks where there is none.
pub open spec fn gap_from(blocks: Seq<FileOffsetSize>, from: int) -> int
    decreases blocks.len() - from,
{
    if from + 1 >= blocks.len() {
        blocks.len() as int
    } else if !adjoins(blocks[from], blocks[from + 1]) {
        from + 1
    } else {
        gap_from(blocks, from + 1)
    }
}

/// The number of blocks before the first gap.
pub open spec fn first_gap(blocks: Seq<FileOffsetSize>) -> int {
    gap_from(blocks, 0)
}

/// The first gap lies after the block it is looked for from, and within
/// the sequence.
pub proof fn lemma_gap_bounds(blocks: Seq<FileOffsetSize>, from: int)
    requires
        0 <= from < blocks.len(),
    ensures
        from < gap_from(blocks, from) <= blocks.len(),
    decreases blocks.len() - from,
{
    if from + 1 < blocks.len() && adjoins(blocks[from], blocks[from + 1]) {
        lemma_gap_bounds(blocks, from + 1);
    }
}

/// In a run every block lies between the start of the first block and the
/// end of the last.
pub proof fn lemma_run_spans(run: Seq<FileOffsetSize>, i: int)
    requires
        is_run(run),
        0 <= i < run.len(),
    ensures
        run[0].offset <= run[i].offset,
        run[i].offset + run[i].size <= run.last().offset + run.last().size,
    decreases run.len() - i,
{
    if i > 0 {
        lemma_run_start(run, i);
    }
    if i + 1 < run.len() {
        assert(adjoins_next(run, i));
        lemma_run_spans(run, i + 1);
    }
}

/// In a run no block starts before the first.
pub proof fn lemma_run_start(run: Seq<FileOffsetSize>, i: int)
    requires
        is_run(run),
        0 <= i < run.len(),
    ensures
        run[0].offset <= run[i].offset,
    decreases i,
{
    if i > 0 {
        lemma_run_start(run, i - 1);
        assert(adjoins_next(run, i - 1));
    }
}

/// Splits the list before its first gap: the blocks of the first part can be
/// read in one go.
pub fn find_file_offset_gap(block_list: &[FileOffsetSize]) -> (split: (
    &[FileOffsetSize],
    &[FileOffsetSize],
))
    ensures
        split.0@ == block_list@.take(first_gap(block_list@)),
        split.1@ == block_list@.skip(first_gap(block_list@)),
        is_run(split.0@),
{
    let len = block_list.len();
    if len == 0 {
        return block_list.split_at(0);
    }
    let mut next: usize = 1;
    while next < len
        invariant
            1 <= next <= len,
            len == block_list@.len(),
            first_gap(block_list@) == gap_from(block_list@, next - 1),
            is_run(block_list@.take(next as int)),
        decreases len - next,
    {
        let before = block_list[next - 1];
        let joined = match before.offset.checked_add(before.size) {
            Some(end) => block_list[next].offset == end,
            None => false,
        };
        if !joined {
            return block_list.split_at(next);
        }
        proof {
            let grown = block_list@.take(next + 1);
            assert forall|i: int| 0 <= i < grown.len() - 1 implies #[trigger] adjoins_next(
                grown,
                i,
            ) by {
                if i < next - 1 {
                    assert(adjoins_next(block_list@.take(next as int), i));
                }
            }
        }
        next = next + 1;
    }
    block_list.split_at(len)
}

/// `block` put into `sorted` behind the last block that does not start
/// after it.
pub open spec fn insert_by_offset(sorted: Seq<FileOffsetSize>, block: FileOffsetSize) -> Seq<
    FileOffsetSize,
>
    decreases sorted.len(),
{
    if sorted.len() == 0 {
        seq![block]
    } else if sorted.last().offset <= block.offset {
        sorted.push(block)
    } else {
        insert_by_offset(sorted.drop_last(), block).push(sorted.last())
    }
}

/// The blocks in ascending order of their offsets, blocks of one offset in
/// the order in which they came.
pub open spec fn sorted_by_offset(blocks: Seq<FileOffsetSize>) -> Seq<FileOffsetSize>
    decreases blocks.len(),
{
    if blocks.len() == 0 {
        blocks
    } else {
        insert_by_offset(sorted_by_offset(blocks.drop_last()), blocks.last())
    }
}

/// Where `block` goes: after index `at`, before which no later block stands.
proof fn lemma_insert_at(sorted: Seq<FileOffsetSize>, block: FileOffsetSize, at: int)
    requires
        0 <= at <= sorted.len(),
        forall|j: int| at <= j < sorted.len() ==> sorted[j].offset > block.offset,
        at > 0 ==> sorted[at - 1].offset <= block.offset,
    ensures
        insert_by_offset(sorted, block) == sorted.insert(at, block),
    decreases sorted.len(),
{
    if sorted.len() == 0 {
        assert(sorted.insert(at, block) =~= seq![block]);
    } else if at == sorted.len() {
        assert(sorted.insert(at, block) =~= sorted.push(block));
    } else {
        lemma_insert_at(sorted.drop_last(), block, at);
        assert(sorted.insert(at, block) =~= sorted.drop_last().insert(at, block).push(
            sorted.last(),
        ));
    }
}

/// Sorts the blocks by offset, keeping blocks of one offset in their order.
pub fn sort_by_offset(blocks: &Vec<FileOffsetSize>) -> (sorted: Vec<FileOffsetSize>)
    ensures
        sorted@ == sorted_by_offset(blocks@),
{
    let mut sorted: Vec<FileOffsetSize> = Vec::with_capacity(blocks.len());
    let mut i: usize = 0;
    assert(blocks@.take(0) =~= Seq::<FileOffsetSize>::empty());
    while i < blocks.len()
        invariant
            i <= blocks.len(),
            sorted@ == sorted_by_offset(blocks@.take(i as int)),
        decreases blocks.len() - i,
    {
        let block = blocks[i];
        let mut at: usize = sorted.len();
        while at > 0 && sorted[at - 1].offset > block.offset
            invariant
                at <= sorted.len(),
                forall|j: int| at <= j < sorted.len() ==> sorted@[j].offset > block.offset,
            decreases at,
        {
            at = at - 1;
        }
        proof {
            lemma_insert_at(sorted@, block, at as int);
            assert(blocks@.take(i + 1).drop_last() =~= blocks@.take(i as int));
        }
        sorted.insert(at, block);
        i = i + 1;
    }
    assert(blocks@.take(blocks.len() as int) =~= blocks@);
    sorted
}

/// Whether the last block of a run ends within the file.
pub open spec fn run_in_file(data: Seq<u8>, run: Seq<FileOffsetSize>) -> bool {
    run.last().offset + run.last().size <= data.len()
}

/// The bytes of a block in the file.
pub open spec fn block_bytes(data: Seq<u8>, block: FileOffsetSize) -> Seq<u8> {
    data.subrange(block.offset as int, block.offset + block.size)
}

/// Reads a run in one go: one seek to the start of its first block and one
/// read up to the end of its last.
fn read_run(reader: &mut ByteReader, run: &[FileOffsetSize]) -> (r: Result<Vec<u8>, Error>)
    requires
        run@.len() > 0,
        is_run(run@),
    ensures
        final(reader).bytes() == old(reader).bytes(),
        match r {
            Ok(span) => run_in_file(old(reader).bytes(), run@) && span@ == old(
                reader).bytes().subrange(
                run@[0].offset as int,
                run@.last().offset + run@.last().size,
            ),
            Err(e) => !run_in_file(old(reader).bytes(), run@) && e@ == eof_error(),
        },
{
    let first = run[0];
    let last = run[run.len() - 1];
    proof {
        lemma_run_spans(run@, 0);
    }
    let file_len = reader.len();
    let end = match last.offset.checked_add(last.size) {
        Some(end) => end,
        None => {
            assert(last.offset + last.size > file_len);
            return Err(Error::IOError(IOErrorWrapper(IoErrorKind::UnexpectedEof)));
        },
    };
    reader.seek_start(first.offset as u64);
    reader.read_exact((end - first.offset) as u64)
}

/// The wanted lines of the blocks of a run from index `from` on, as long as
/// there is room.
pub open spec fn run_records(
    data: Seq<u8>,
    run: Seq<FileOffsetSize>,
    from: int,
    buf_size: nat,
    big_endian: bool,
    chrom_id: u32,
    start: u32,
    end: u32,
    room: Option<nat>,
) -> Result<Seq<BedLineView>, ErrorView>
    decreases run.len() - from,
{
    if from < 0 || from >= run.len() || room == Some(0nat) {
        Ok(Seq::empty())
    } else {
        match block_records(
            block_bytes(data, run[from]),
            buf_size,
            big_endian,
            chrom_id,
            start,
            end,
            room,
        ) {
            Err(e) => Err(e),
            Ok(lines) => then_extend(
                lines,
                run_records(
                    data,
                    run,
                    from + 1,
                    buf_size,
                    big_endian,
                    chrom_id,
                    start,
                    end,
                    room_after(room, lines.len() as int),
                ),
            ),
        }
    }
}

/// The wanted lines of all the blocks, in the order of the blocks, as long
/// as there is room. The blocks are taken run by run, and a run that does not
/// lie within the file is a failed read.
pub open spec fn collect_records(
    data: Seq<u8>,
    blocks: Seq<FileOffsetSize>,
    buf_size: nat,
    big_endian: bool,
    chrom_id: u32,
    start: u32,
    end: u32,
    room: Option<nat>,
) -> Result<Seq<BedLineView>, ErrorView>
    decreases blocks.len(),
{
    if blocks.len() == 0 || room == Some(0nat) {
        Ok(Seq::empty())
    } else {
        proof {
            lemma_gap_bounds(blocks, 0);
        }
        let run = blocks.take(first_gap(blocks));
        if !run_in_file(data, run) {
            Err(eof_error())
        } else {
            match run_records(data, run, 0, buf_size, big_endian, chrom_id, start, end, room) {
                Err(e) => Err(e),
                Ok(lines) => then_extend(
                    lines,
                    collect_records(
                        data,
                        blocks.skip(first_gap(blocks)),
                        buf_size,
                        big_endian,
                        chrom_id,
                        start,
                        end,
                        room_after(room, lines.len() as int),
                    ),
                ),
            }
        }
    }
}

/// Whether the inflate stream and its buffer are ready for a file whose
/// blocks inflate to at most `buf_size` bytes: none is needed where
/// `buf_size` is zero.
pub open spec fn inflater_ready(
    stream: Option<flate2::Decompress>,
    buffer: Seq<u8>,
    buf_size: usize,
) -> bool {
    if buf_size > 0 {
        buffer.len() == buf_size && (stream matches Some(s) && inflater_view(s) == (InflaterView {
            zlib_header: true,
            fresh: true,
            total_out: 0,
        }))
    } else {
        stream is None
    }
}

/// Decodes one block whose bytes in the file are `raw`, inflating them first
/// where the file says so, and adds the wanted lines to `lines`.
fn decode_stored_block(
    raw: &[u8],
    stream: &mut Option<flate2::Decompress>,
    buffer: &mut Vec<u8>,
    buf_size: usize,
    big_endian: bool,
    chrom_id: u32,
    start: u32,
    end: u32,
    max_items: u32,
    lines: &mut Vec<BedLine>,
) -> (r: Result<(), Error>)
    requires
        inflater_ready(*old(stream), old(buffer)@, buf_size),
    ensures
        inflater_ready(*final(stream), final(buffer)@, buf_size),
        match r {
            Ok(_) => block_records(
                raw@,
                buf_size as nat,
                big_endian,
                chrom_id,
                start,
                end,
                room_left(max_items, old(lines)@.len() as int),
            ) == Ok::<Seq<BedLineView>, ErrorView>(
                line_views(final(lines)@.skip(old(lines)@.len() as int)),
            ) && final(lines)@.take(old(lines)@.len() as int) == old(lines)@ && final(lines)@.len()
                >= old(lines)@.len(),
            Err(e) => block_records(
                raw@,
                buf_size as nat,
                big_endian,
                chrom_id,
                start,
                end,
                room_left(max_items, old(lines)@.len() as int),
            ) == Err::<Seq<BedLineView>, ErrorView>(e@),
        },
{
    match stream {
        Some(inflater) => {
            match inflate_block(inflater, raw, buffer) {
                Ok(len) => decode_block(
                    slice_subrange(buffer.as_slice(), 0, len),
                    big_endian,
                    chrom_id,
                    start,
                    end,
                    max_items,
                    lines,
                ),
                Err(e) => Err(e),
            }
        },
        None => decode_block(raw, big_endian, chrom_id, start, end, max_items, lines),
    }
}

/// What the lines of a run are from block `i` on, with `head` in front:
/// the failure of block `i`, or its lines behind `head` and in front of the
/// lines from block `i + 1` on.
proof fn lemma_run_step(
    data: Seq<u8>,
    run: Seq<FileOffsetSize>,
    i: int,
    buf_size: nat,
    big_endian: bool,
    chrom_id: u32,
    start: u32,
    end: u32,
    room: Option<nat>,
    head: Seq<BedLineView>,
)
    requires
        0 <= i < run.len(),
        room != Some(0nat),
    ensures
        then_extend(
            head,
            run_records(data, run, i, buf_size, big_endian, chrom_id, start, end, room),
        ) == match block_records(
            block_bytes(data, run[i]),
            buf_size,
            big_endian,
            chrom_id,
            start,
            end,
            room,
        ) {
            Err(e) => Err(e),
            Ok(lines) => then_extend(
                head + lines,
                run_records(
                    data,
                    run,
                    i + 1,
                    buf_size,
                    big_endian,
                    chrom_id,
                    start,
                    end,
                    room_after(room, lines.len() as int),
                ),
            ),
        },
{
    match block_records(
        block_bytes(data, run[i]),
        buf_size,
        big_endian,
        chrom_id,
        start,
        end,
        room,
    ) {
        Err(_) => {},
        Ok(lines) => {
            lemma_then_extend_twice(
                head,
                lines,
                run_records(
                    data,
                    run,
                    i + 1,
                    buf_size,
                    big_endian,
                    chrom_id,
                    start,
                    end,
                    room_after(room, lines.len() as int),
                ),
            );
        },
    }
}

/// The bytes of block `i` of a run, cut out of `span`, the bytes of the
/// file from the start of the run to its end.
fn slice_block<'a>(
    span: &'a [u8],
    run: &[FileOffsetSize],
    i: usize,
    Ghost(data): Ghost<Seq<u8>>,
) -> (raw: &'a [u8])
    requires
        i < run@.len(),
        is_run(run@),
        run_in_file(data, run@),
        span@ == data.subrange(run@[0].offset as int, run@.last().offset + run@.last().size),
    ensures
        raw@ == block_bytes(data, run@[i as int]),
{
    proof {
        lemma_run_spans(run@, i as int);
        lemma_run_spans(run@, 0);
    }
    let span_len = span.len();
    let block = run[i];
    let from: usize = block.offset - run[0].offset;
    assert(from + block.size <= span_len);
    let raw = slice_subrange(span, from, from + block.size);
    assert(raw@ =~= block_bytes(data, run@[i as int]));
    raw
}

/// Decodes the blocks of a run out of `span`, the bytes of the file from the
/// start of its first block to the end of its last, and adds the wanted
/// lines to `lines`.
fn decode_run(
    span: &[u8],
    run: &[FileOffsetSize],
    Ghost(data): Ghost<Seq<u8>>,
    stream: &mut Option<flate2::Decompress>,
    buffer: &mut Vec<u8>,
    buf_size: usize,
    big_endian: bool,
    chrom_id: u32,
    start: u32,
    end: u32,
    max_items: u32,
    lines: &mut Vec<BedLine>,
) -> (r: Result<(), Error>)
    requires
        run@.len() > 0,
        is_run(run@),
        run_in_file(data, run@),
        span@ == data.subrange(run@[0].offset as int, run@.last().offset + run@.last().size),
        inflater_ready(*old(stream), old(buffer)@, buf_size),
    ensures
        inflater_ready(*final(stream), final(buffer)@, buf_size),
        match r {
            Ok(_) => run_records(
                data,
                run@,
                0,
                buf_size as nat,
                big_endian,
                chrom_id,
                start,
                end,
                room_left(max_items, old(lines)@.len() as int),
            ) == Ok::<Seq<BedLineView>, ErrorView>(
                line_views(final(lines)@.skip(old(lines)@.len() as int)),
            ) && final(lines)@.take(old(lines)@.len() as int) == old(lines)@ && final(lines)@.len()
                >= old(lines)@.len(),
            Err(e) => run_records(
                data,
                run@,
                0,
                buf_size as nat,
                big_endian,
                chrom_id,
                start,
                end,
                room_left(max_items, old(lines)@.len() as int),
            ) == Err::<Seq<BedLineView>, ErrorView>(e@),
        },
{
    let ghost base = lines@.len() as int;
    let ghost goal = run_records(
        data,
        run@,
        0,
        buf_size as nat,
        big_endian,
        chrom_id,
        start,
        end,
        room_left(max_items, base),
    );
    let mut i: usize = 0;
    proof {
        assert(line_views(lines@.skip(base)) =~= Seq::<BedLineView>::empty());
        lemma_then_extend_empty(Seq::<BedLineView>::empty(), goal);
        assert(lines@.take(base) =~= old(lines)@);
    }
    while i < run.len() && (max_items == 0 || lines.len() < max_items as usize)
        invariant
            i <= run.len(),
            run.len() == run@.len(),
            is_run(run@),
            run_in_file(data, run@),
            span@ == data.subrange(run@[0].offset as int, run@.last().offset + run@.last().size),
            inflater_ready(*stream, buffer@, buf_size),
            base == old(lines)@.len(),
            lines@.len() >= base,
            lines@.take(base) == old(lines)@,
            goal == run_records(
                data,
                run@,
                0,
                buf_size as nat,
                big_endian,
                chrom_id,
                start,
                end,
                room_left(max_items, base),
            ),
            goal == then_extend(
                line_views(lines@.skip(base)),
                run_records(
                    data,
                    run@,
                    i as int,
                    buf_size as nat,
                    big_endian,
                    chrom_id,
                    start,
                    end,
                    room_left(max_items, lines@.len() as int),
                ),
            ),
        decreases run.len() - i,
    {
        let raw = slice_block(span, run, i, Ghost(data));
        let ghost before = lines@;
        let ghost room = room_left(max_items, before.len() as int);
        proof {
            lemma_run_step(
                data,
                run@,
                i as int,
                buf_size as nat,
                big_endian,
                chrom_id,
                start,
                end,
                room,
                line_views(before.skip(base)),
            );
        }
        match decode_stored_block(
            raw,
            stream,
            buffer,
            buf_size,
            big_endian,
            chrom_id,
            start,
            end,
            max_items,
            lines,
        ) {
            Ok(_) => {},
            Err(e) => {
                return Err(e);
            },
        }
        proof {
            lemma_views_grow(before, lines@, base);
            assert(room_after(room, lines@.len() - before.len()) == room_left(
                max_items,
                lines@.len() as int,
            ));
        }
        i = i + 1;
    }
    proof {
        lemma_then_extend_empty(
            line_views(lines@.skip(base)),
            Ok::<Seq<BedLineView>, ErrorView>(Seq::empty()),
        );
    }
    Ok(())
}

/// Reads the blocks run by run and decodes their records: the wanted lines
/// in the order of the blocks, at most `max_items` of them where that is
/// above zero.
pub fn read_blocks(
    reader: &mut ByteReader,
    blocks: &[FileOffsetSize],
    buf_size: usize,
    big_endian: bool,
    chrom_id: u32,
    start: u32,
    end: u32,
    max_items: u32,
) -> (r: Result<Vec<BedLine>, Error>)
    ensures
        final(reader).bytes() == old(reader).bytes(),
        match r {
            Ok(lines) => collect_records(
                old(reader).bytes(),
                blocks@,
                buf_size as nat,
                big_endian,
                chrom_id,
                start,
                end,
                room_left(max_items, 0),
            ) == Ok::<Seq<BedLineView>, ErrorView>(line_views(lines@)),
            Err(e) => collect_records(
                old(reader).bytes(),
                blocks@,
                buf_size as nat,
                big_endian,
                chrom_id,
                start,
                end,
                room_left(max_items, 0),
            ) == Err::<Seq<BedLineView>, ErrorView>(e@),
        },
{
    let ghost data = reader.bytes();
    let ghost goal = collect_records(
        data,
        blocks@,
        buf_size as nat,
        big_endian,
        chrom_id,
        start,
        end,
        room_left(max_items, 0),
    );
    let mut lines: Vec<BedLine> = Vec::new();
    let mut stream: Option<flate2::Decompress> = None;
    let mut buffer: Vec<u8> = Vec::new();
    if buf_size > 0 {
        stream = Some(new_inflater(true));
        buffer = vec![0u8; buf_size];
    }
    let mut remaining: &[FileOffsetSize] = blocks;
    proof {
        assert(line_views(lines@) =~= Seq::<BedLineView>::empty());
        lemma_then_extend_empty(Seq::<BedLineView>::empty(), goal);
    }
    while remaining.len() > 0 && (max_items == 0 || lines.len() < max_items as usize)
        invariant
            reader.bytes() == data,
            data == old(reader).bytes(),
            remaining.len() == remaining@.len(),
            inflater_ready(stream, buffer@, buf_size),
            goal == collect_records(
                data,
                blocks@,
                buf_size as nat,
                big_endian,
                chrom_id,
                start,
                end,
                room_left(max_items, 0),
            ),
            goal == then_extend(
                line_views(lines@),
                collect_records(
                    data,
                    remaining@,
                    buf_size as nat,
                    big_endian,
                    chrom_id,
                    start,
                    end,
                    room_left(max_items, lines@.len() as int),
                ),
            ),
        decreases remaining.len(),
    {
        let ghost before = lines@;
        let ghost room = room_left(max_items, before.len() as int);
        proof {
            lemma_gap_bounds(remaining@, 0);
        }
        let split = find_file_offset_gap(remaining);
        let run = split.0;
        remaining = split.1;
        let span = match read_run(reader, run) {
            Ok(span) => span,
            Err(e) => {
                return Err(e);
            },
        };
        match decode_run(
            span.as_slice(),
            run,
            Ghost(data),
            &mut stream,
            &mut buffer,
            buf_size,
            big_endian,
            chrom_id,
            start,
            end,
            max_items,
            &mut lines,
        ) {
            Ok(_) => {},
            Err(e) => {
                return Err(e);
            },
        }
        proof {
            let added = line_views(lines@.skip(before.len() as int));
            lemma_views_grow(before, lines@, 0);
            assert(before.skip(0) =~= before);
            assert(lines@.skip(0) =~= lines@);
            assert(room_after(room, added.len() as int) == room_left(
                max_items,
                lines@.len() as int,
            ));
            lemma_then_extend_twice(
                line_views(before),
                added,
                collect_records(
                    data,
                    remaining@,
                    buf_size as nat,
                    big_endian,
                    chrom_id,
                    start,
                    end,
                    room_left(max_items, lines@.len() as int),
                ),
            );
        }
    }
    proof {
        lemma_then_extend_empty(
            line_views(lines@),
            Ok::<Seq<BedLineView>, ErrorView>(Seq::empty()),
        );
    }
    Ok(lines)
}

} // verus!
