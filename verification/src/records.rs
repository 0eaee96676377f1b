//! The records of a data block: three 32-bit fields and a text that a zero
//! byte ends, one after the other until the block is used up.

use vstd::prelude::*;
use vstd::slice::slice_subrange;
use vstd::slice::slice_to_vec;
use vstd::utf8::{decode_utf8, valid_utf8};
use crate::byteorder::{decode_u32, u32_at};
use crate::error::{eof_error, lemma_then_extend_empty, lemma_then_extend_twice, misc_error, then_extend, Error, ErrorView, IOErrorWrapper, IoErrorKind};
use crate::inflate::block_payload;
use crate::keys::string_from_utf8;

verus! {

/// The message of the failure on a record whose text is not UTF-8.
pub const REST_NOT_UTF8: &'static str = "record text is not valid UTF-8";

/// One interval of the file.
#[derive(Debug, Clone, PartialEq)]
pub struct BedLine {
    pub chrom_id: u32,
    pub start: u32,
    pub end: u32,
    /// What follows the three fields, where anything does.
    pub rest: Option<String>,
}

/// A [`BedLine`] with its text as a sequence of characters.
pub struct BedLineView {
    pub chrom_id: u32,
    pub start: u32,
    pub end: u32,
    pub rest: Option<Seq<char>>,
}

impl View for BedLine {
    type V = BedLineView;

    open spec fn view(&self) -> BedLineView {
        BedLineView {
            chrom_id: self.chrom_id,
            start: self.start,
            end: self.end,
            rest: match self.rest {
                Some(text) => Some(text@),
                None => None,
            },
        }
    }
}

/// The views of a sequence of lines.
pub open spec fn line_views(lines: Seq<BedLine>) -> Seq<BedLineView> {
    Seq::new(lines.len(), |i: int| lines[i]@)
}

/// Where a list of lines has grown at its end, the views of what lies
/// behind index `base` have grown by the views of what was added.
pub proof fn lemma_views_grow(before: Seq<BedLine>, after: Seq<BedLine>, base: int)
    requires
        0 <= base <= before.len() <= after.len(),
        after.take(before.len() as int) == before,
    ensures
        line_views(after.skip(base)) == line_views(before.skip(base)) + line_views(
            after.skip(before.len() as int),
        ),
        after.take(base) == before.take(base),
{
    assert forall|k: int| 0 <= k < before.len() implies after[k] == before[k] by {
        assert(after.take(before.len() as int)[k] == before[k]);
    }
    assert(line_views(after.skip(base)) =~= line_views(before.skip(base)) + line_views(
        after.skip(before.len() as int),
    ));
    assert(after.take(base) =~= before.take(base));
}

/// How many more lines may be taken: `None` where `max_items` is zero, which
/// sets no limit, else what `max_items` leaves after `taken` lines.
pub open spec fn room_left(max_items: u32, taken: int) -> Option<nat> {
    if max_items == 0 {
        None
    } else if taken >= max_items {
        Some(0nat)
    } else {
        Some((max_items - taken) as nat)
    }
}

/// The room that is left after `used` more lines.
pub open spec fn room_after(room: Option<nat>, used: int) -> Option<nat> {
    match room {
        None => None,
        Some(left) => if used >= left {
            Some(0nat)
        } else {
            Some((left - used) as nat)
        },
    }
}

/// Whether a record from `rec_start` to `rec_end` on chromosome `rec_chrom`
/// belongs to the answer for the range from `start` to `end` on chromosome
/// `chrom_id`: it overlaps the range, or it is empty and lies on one of the
/// two ends of the range.
pub open spec fn record_wanted(
    chrom_id: u32,
    start: u32,
    end: u32,
    rec_chrom: u32,
    rec_start: u32,
    rec_end: u32,
) -> bool {
    rec_chrom == chrom_id && ((rec_start < end && rec_end > start) || (rec_start == rec_end && (
    rec_start == start || rec_start == end)))
}

/// Decides whether a record belongs to the answer.
pub fn is_record_wanted(
    chrom_id: u32,
    start: u32,
    end: u32,
    rec_chrom: u32,
    rec_start: u32,
    rec_end: u32,
) -> (wanted: bool)
    ensures
        wanted == record_wanted(chrom_id, start, end, rec_chrom, rec_start, rec_end),
{
    rec_chrom == chrom_id && ((rec_start < end && rec_end > start) || (rec_start == rec_end && (
    rec_start == start || rec_start == end)))
}

/// The index of the first zero byte at or after `from`, or the length of
/// `bytes` where none follows.
pub open spec fn text_end(bytes: Seq<u8>, from: int) -> int
    decreases bytes.len() - from,
{
    if from >= bytes.len() {
        bytes.len() as int
    } else if bytes[from] == 0 {
        from
    } else {
        text_end(bytes, from + 1)
    }
}

/// A text ends at or after the index where it starts, and within `bytes`.
pub proof fn lemma_text_end_bounds(bytes: Seq<u8>, from: int)
    requires
        0 <= from <= bytes.len(),
    ensures
        from <= text_end(bytes, from) <= bytes.len(),
        text_end(bytes, from) < bytes.len() ==> bytes[text_end(bytes, from)] == 0,
        forall|i: int| from <= i < text_end(bytes, from) ==> bytes[i] != 0,
    decreases bytes.len() - from,
{
    if from < bytes.len() && bytes[from] != 0 {
        lemma_text_end_bounds(bytes, from + 1);
    }
}

/// Where the record after the one whose text ends at `stop` begins.
pub open spec fn next_record(bytes: Seq<u8>, stop: int) -> int {
    if stop < bytes.len() {
        stop + 1
    } else {
        bytes.len() as int
    }
}

/// The line of the record at `at`, whose text ends at `stop`.
pub open spec fn line_at(bytes: Seq<u8>, at: int, stop: int, big_endian: bool) -> BedLineView {
    BedLineView {
        chrom_id: u32_at(bytes, at, big_endian),
        start: u32_at(bytes, at + 4, big_endian),
        end: u32_at(bytes, at + 8, big_endian),
        rest: if stop > at + 12 {
            Some(decode_utf8(bytes.subrange(at + 12, stop)))
        } else {
            None
        },
    }
}

/// The wanted lines among the records of `bytes` from index `at` on, as long
/// as there is room. A record cut short by the end of the block is a failed
/// read; a wanted record whose text is not UTF-8 is a failure too.
pub open spec fn decode_records(
    bytes: Seq<u8>,
    at: int,
    big_endian: bool,
    chrom_id: u32,
    start: u32,
    end: u32,
    room: Option<nat>,
) -> Result<Seq<BedLineView>, ErrorView>
    decreases bytes.len() - at,
{
    if at < 0 || at >= bytes.len() || room == Some(0nat) {
        Ok(Seq::empty())
    } else if at + 12 > bytes.len() {
        Err(eof_error())
    } else {
        proof {
            lemma_text_end_bounds(bytes, at + 12);
        }
        let stop = text_end(bytes, at + 12);
        let next = next_record(bytes, stop);
        if record_wanted(
            chrom_id,
            start,
            end,
            u32_at(bytes, at, big_endian),
            u32_at(bytes, at + 4, big_endian),
            u32_at(bytes, at + 8, big_endian),
        ) {
            if !valid_utf8(bytes.subrange(at + 12, stop)) {
                Err(misc_error(REST_NOT_UTF8))
            } else {
                then_extend(
                    seq![line_at(bytes, at, stop, big_endian)],
                    decode_records(
                        bytes,
                        next,
                        big_endian,
                        chrom_id,
                        start,
                        end,
                        room_after(room, 1),
                    ),
                )
            }
        } else {
            decode_records(bytes, next, big_endian, chrom_id, start, end, room)
        }
    }
}

/// The wanted lines of a data block whose bytes in the file are `raw`.
pub open spec fn block_records(
    raw: Seq<u8>,
    buf_size: nat,
    big_endian: bool,
    chrom_id: u32,
    start: u32,
    end: u32,
    room: Option<nat>,
) -> Result<Seq<BedLineView>, ErrorView> {
    match block_payload(raw, buf_size) {
        Err(e) => Err(e),
        Ok(payload) => decode_records(payload, 0, big_endian, chrom_id, start, end, room),
    }
}

/// The end of the text that starts at `from`.
fn find_text_end(bytes: &[u8], from: usize) -> (stop: usize)
    requires
        from <= bytes.len(),
    ensures
        stop == text_end(bytes@, from as int),
        from <= stop <= bytes.len(),
{
    let mut i: usize = from;
    while i < bytes.len() && bytes[i] != 0
        invariant
            from <= i <= bytes.len(),
            text_end(bytes@, from as int) == text_end(bytes@, i as int),
        decreases bytes.len() - i,
    {
        i = i + 1;
    }
    i
}

/// Decodes the records of one block and adds the wanted ones to `lines`,
/// which holds what earlier blocks gave. With a `max_items` above zero the
/// decoding stops as soon as `lines` holds that many.
pub fn decode_block(
    bytes: &[u8],
    big_endian: bool,
    chrom_id: u32,
    start: u32,
    end: u32,
    max_items: u32,
    lines: &mut Vec<BedLine>,
) -> (r: Result<(), Error>)
    ensures
        match r {
            Ok(_) => decode_records(
                bytes@,
                0,
                big_endian,
                chrom_id,
                start,
                end,
                room_left(max_items, old(lines)@.len() as int),
            ) == Ok::<Seq<BedLineView>, ErrorView>(
                line_views(final(lines)@.skip(old(lines)@.len() as int)),
            ) && final(lines)@.take(old(lines)@.len() as int) == old(lines)@ && final(lines)@.len()
                >= old(lines)@.len(),
            Err(e) => decode_records(
                bytes@,
                0,
                big_endian,
                chrom_id,
                start,
                end,
                room_left(max_items, old(lines)@.len() as int),
            ) == Err::<Seq<BedLineView>, ErrorView>(e@),
        },
{
    let ghost base = lines@.len() as int;
    let ghost goal = decode_records(
        bytes@,
        0,
        big_endian,
        chrom_id,
        start,
        end,
        room_left(max_items, base),
    );
    let mut at: usize = 0;
    proof {
        assert(line_views(lines@.skip(base)) =~= Seq::<BedLineView>::empty());
        lemma_then_extend_empty(Seq::<BedLineView>::empty(), goal);
        assert(lines@.take(base) =~= old(lines)@);
    }
    while at < bytes.len() && (max_items == 0 || lines.len() < max_items as usize)
        invariant
            at <= bytes.len(),
            bytes.len() == bytes@.len(),
            base == old(lines)@.len(),
            lines@.len() >= base,
            lines@.take(base) == old(lines)@,
            goal == decode_records(
                bytes@,
                0,
                big_endian,
                chrom_id,
                start,
                end,
                room_left(max_items, base),
            ),
            goal == then_extend(
                line_views(lines@.skip(base)),
                decode_records(
                    bytes@,
                    at as int,
                    big_endian,
                    chrom_id,
                    start,
                    end,
                    room_left(max_items, lines@.len() as int),
                ),
            ),
        decreases bytes.len() - at,
    {
        if bytes.len() - at < 12 {
            return Err(Error::IOError(IOErrorWrapper(IoErrorKind::UnexpectedEof)));
        }
        let rec_chrom = decode_u32(bytes, at, big_endian);
        let rec_start = decode_u32(bytes, at + 4, big_endian);
        let rec_end = decode_u32(bytes, at + 8, big_endian);
        let stop = find_text_end(bytes, at + 12);
        let next: usize = if stop < bytes.len() {
            stop + 1
        } else {
            bytes.len()
        };
        if is_record_wanted(chrom_id, start, end, rec_chrom, rec_start, rec_end) {
            let text = slice_to_vec(slice_subrange(bytes, at + 12, stop));
            let rest = match string_from_utf8(text) {
                Ok(rest) => rest,
                Err(_) => {
                    return Err(Error::Misc(REST_NOT_UTF8));
                },
            };
            let ghost before = lines@;
            let line = BedLine {
                chrom_id: rec_chrom,
                start: rec_start,
                end: rec_end,
                rest: if stop > at + 12 {
                    Some(rest)
                } else {
                    None
                },
            };
            assert(line@ == line_at(bytes@, at as int, stop as int, big_endian));
            lines.push(line);
            proof {
                let one = seq![line_at(bytes@, at as int, stop as int, big_endian)];
                assert(lines@.take(base) =~= before.take(base));
                assert(line_views(lines@.skip(base)) =~= line_views(before.skip(base)) + one);
                assert(room_after(room_left(max_items, before.len() as int), 1) == room_left(
                    max_items,
                    lines@.len() as int,
                ));
                lemma_then_extend_twice(
                    line_views(before.skip(base)),
                    one,
                    decode_records(
                        bytes@,
                        next as int,
                        big_endian,
                        chrom_id,
                        start,
                        end,
                        room_left(max_items, lines@.len() as int),
                    ),
                );
            }
        }
        at = next;
    }
    proof {
        lemma_then_extend_empty(
            line_views(lines@.skip(base)),
            Ok::<Seq<BedLineView>, ErrorView>(Seq::empty()),
        );
    }
    Ok(())
}

} // verus!
