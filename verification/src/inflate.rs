//! Inflating a compressed data block with the `flate2` crate. Verus does not
//! look inside that crate: what this file says of it is taken on trust from
//! its source and documentation.

use vstd::prelude::*;
use crate::error::{Error, ErrorView};

verus! {

/// `flate2::Decompress`, the state of one inflate stream.
#[verifier::external_type_specification]
#[verifier::external_body]
pub struct ExDecompress(flate2::Decompress);

/// `flate2::DecompressError`, the refusal of a corrupt stream.
#[verifier::external_type_specification]
#[verifier::external_body]
pub struct ExDecompressError(flate2::DecompressError);

/// How a call of `decompress` ended where it did not refuse the stream: the
/// three variants of `flate2::Status`.
#[derive(Clone, Copy, Debug, PartialEq, Eq, Structural)]
pub enum InflateStatus {
    /// `Status::Ok`.
    Okay,
    BufError,
    StreamEnd,
}

/// What is known of an inflate stream.
pub struct InflaterView {
    /// Whether the stream expects a zlib header.
    pub zlib_header: bool,
    /// Whether the stream has seen no input since it was made or reset.
    pub fresh: bool,
    /// How many bytes it has written since it was made or reset.
    pub total_out: nat,
}

/// What one call of `decompress` on a fresh stream does.
pub struct Inflation {
    /// The status returned, or `None` where the stream was refused.
    pub status: Option<InflateStatus>,
    /// The bytes written to the front of the output buffer.
    pub output: Seq<u8>,
}

/// The state of an inflate stream.
pub uninterp spec fn inflater_view(stream: flate2::Decompress) -> InflaterView;

/// What a fresh inflate stream, made to expect a zlib header or not, does
/// with `input` when it is asked to finish and has `room` bytes to write to.
pub uninterp spec fn inflation(zlib_header: bool, input: Seq<u8>, room: nat) -> Inflation;

/// A fresh inflate stream. Calls `flate2::Decompress::new`, which allocates
/// a stream with both byte counts at zero.
#[verifier::external_body]
pub(crate) fn new_inflater(zlib_header: bool) -> (stream: flate2::Decompress)
    ensures
        inflater_view(stream) == (InflaterView { zlib_header, fresh: true, total_out: 0 }),
{
    flate2::Decompress::new(zlib_header)
}

/// Inflates `input` into the front of `output`, asking the stream to finish.
/// Calls `flate2::Decompress::decompress` with `FlushDecompress::Finish`. It
/// writes no more bytes than `output` holds and leaves its length alone; it
/// adds the number of bytes written to the stream's count. On a fresh stream
/// what it writes and returns depends on the input and on the length of
/// `output` only.
#[verifier::external_body]
pub(crate) fn inflate_finish(
    stream: &mut flate2::Decompress,
    input: &[u8],
    output: &mut Vec<u8>,
) -> (r: Result<InflateStatus, flate2::DecompressError>)
    ensures
        final(output)@.len() == old(output)@.len(),
        inflater_view(*final(stream)).zlib_header == inflater_view(*old(stream)).zlib_header,
        inflater_view(*old(stream)).fresh ==> ({
            let run = inflation(
                inflater_view(*old(stream)).zlib_header,
                input@,
                old(output)@.len(),
            );
            &&& run.output.len() <= old(output)@.len()
            &&& final(output)@.subrange(0, run.output.len() as int) == run.output
            &&& inflater_view(*final(stream)).total_out == run.output.len()
            &&& match r {
                Ok(status) => run.status == Some(status),
                Err(_) => run.status is None,
            }
        }),
{
    match stream.decompress(input, output.as_mut_slice(), flate2::FlushDecompress::Finish) {
        Ok(flate2::Status::Ok) => Ok(InflateStatus::Okay),
        Ok(flate2::Status::BufError) => Ok(InflateStatus::BufError),
        Ok(flate2::Status::StreamEnd) => Ok(InflateStatus::StreamEnd),
        Err(e) => Err(e),
    }
}

/// The number of bytes that the stream has written since it was made or
/// reset. Calls `flate2::Decompress::total_out`.
#[verifier::external_body]
pub(crate) fn inflater_total_out(stream: &flate2::Decompress) -> (count: u64)
    ensures
        count == inflater_view(*stream).total_out,
{
    stream.total_out()
}

/// Makes the stream fresh again. Calls `flate2::Decompress::reset`, which
/// does what replacing the stream with a new one would do.
#[verifier::external_body]
pub(crate) fn reset_inflater(stream: &mut flate2::Decompress, zlib_header: bool)
    ensures
        inflater_view(*final(stream)) == (InflaterView { zlib_header, fresh: true, total_out: 0 }),
{
    stream.reset(zlib_header)
}

/// The records of a data block whose bytes in the file are `raw`: `raw`
/// itself where `buf_size` is zero, which says that blocks are stored as
/// they are; else what `raw` inflates to in a buffer of `buf_size` bytes.
pub open spec fn block_payload(raw: Seq<u8>, buf_size: nat) -> Result<Seq<u8>, ErrorView> {
    if buf_size == 0 {
        Ok(raw)
    } else {
        payload_of(inflation(true, raw, buf_size))
    }
}

/// The records that an inflation gave: its output where it ended with
/// `Okay` or `StreamEnd`; a failure where the stream was refused, or where
/// it could not go on, as when the buffer is too small for the block.
pub open spec fn payload_of(run: Inflation) -> Result<Seq<u8>, ErrorView> {
    match run.status {
        Some(InflateStatus::Okay) | Some(InflateStatus::StreamEnd) => Ok(run.output),
        Some(InflateStatus::BufError) | None => Err(ErrorView::DecompressError),
    }
}

/// Judges what a call of `decompress` returned, `written` being the number
/// of bytes that the stream then says it wrote: the length of the records,
/// or the failure.
pub fn inflated_len(
    outcome: Result<InflateStatus, flate2::DecompressError>,
    written: u64,
) -> (r: Result<u64, Error>)
    ensures
        match outcome {
            Ok(InflateStatus::Okay) | Ok(InflateStatus::StreamEnd) => r == Ok::<u64, Error>(written),
            Ok(InflateStatus::BufError) | Err(_) => r matches Err(e) && e@
                == ErrorView::DecompressError,
        },
{
    match outcome {
        Ok(InflateStatus::Okay) => Ok(written),
        Ok(InflateStatus::StreamEnd) => Ok(written),
        Ok(InflateStatus::BufError) => Err(Error::DecompressError),
        Err(_) => Err(Error::DecompressError),
    }
}

/// Inflates one block into `buffer` with a fresh stream and leaves the
/// stream fresh for the next block. Returns how many bytes at the front of
/// `buffer` are the records.
pub(crate) fn inflate_block(stream: &mut flate2::Decompress, raw: &[u8], buffer: &mut Vec<u8>) -> (r:
    Result<usize, Error>)
    requires
        inflater_view(*old(stream)).fresh,
        inflater_view(*old(stream)).zlib_header,
        old(buffer)@.len() > 0,
    ensures
        inflater_view(*final(stream)) == (InflaterView {
            zlib_header: true,
            fresh: true,
            total_out: 0,
        }),
        final(buffer)@.len() == old(buffer)@.len(),
        match r {
            Ok(len) => len <= final(buffer)@.len() && block_payload(
                raw@,
                old(buffer)@.len(),
            ) == Ok::<Seq<u8>, ErrorView>(final(buffer)@.subrange(0, len as int)),
            Err(e) => block_payload(raw@, old(buffer)@.len()) == Err::<
                Seq<u8>,
                ErrorView,
            >(e@),
        },
{
    let room = buffer.len();
    let outcome = inflate_finish(stream, raw, buffer);
    let written = inflater_total_out(stream);
    reset_inflater(stream, true);
    match inflated_len(outcome, written) {
        Ok(len) => {
            assert(len <= room);
            Ok(len as usize)
        },
        Err(e) => Err(e),
    }
}

} // verus!
