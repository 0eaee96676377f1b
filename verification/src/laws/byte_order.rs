//! Laws of the byte order that a signature announces.

use vstd::prelude::*;
use crate::bigbed::{file_header, BIGBED_SIG};
use crate::bptree::BPT_SIG;
use crate::byteorder::{u16_at, u32_at, u64_at};
use crate::cirtree::{cir_header_at, CIRTREE_SIG};

verus! {

/// No signature reads the same in both directions, so four bytes announce
/// at most one byte order.
pub proof fn law_signature_names_one_order(received: Seq<u8>)
    ensures
        !(received == BIGBED_SIG@ && received == BIGBED_SIG@.reverse()),
        !(received == BPT_SIG@ && received == BPT_SIG@.reverse()),
        !(received == CIRTREE_SIG@ && received == CIRTREE_SIG@.reverse()),
{
    assert(BIGBED_SIG@[0] == 0x87 && BIGBED_SIG@.reverse()[0] == 0xEB);
    assert(BPT_SIG@[0] == 0x78 && BPT_SIG@.reverse()[0] == 0x91);
    assert(CIRTREE_SIG@[0] == 0x24 && CIRTREE_SIG@.reverse()[0] == 0xE0);
}

/// Bytes read in one order give what the same bytes, reversed, give in the
/// other order: a field read in the wrong order comes out byte-swapped.
pub proof fn law_reversed_bytes_read_in_the_other_order(bytes: Seq<u8>, big_endian: bool)
    ensures
        bytes.len() == 2 ==> u16_at(bytes, 0, big_endian) == u16_at(bytes.reverse(), 0, !big_endian),
        bytes.len() == 4 ==> u32_at(bytes, 0, big_endian) == u32_at(bytes.reverse(), 0, !big_endian),
        bytes.len() == 8 ==> u64_at(bytes, 0, big_endian) == u64_at(bytes.reverse(), 0, !big_endian),
{
    let r = bytes.reverse();
    if bytes.len() == 2 {
        assert(r[0] == bytes[1] && r[1] == bytes[0]);
    }
    if bytes.len() == 4 {
        assert(r[0] == bytes[3] && r[1] == bytes[2] && r[2] == bytes[1] && r[3] == bytes[0]);
    }
    if bytes.len() == 8 {
        assert(r[0] == bytes[7] && r[1] == bytes[6] && r[2] == bytes[5] && r[3] == bytes[4]);
        assert(r[4] == bytes[3] && r[5] == bytes[2] && r[6] == bytes[1] && r[7] == bytes[0]);
    }
}

/// The byte order of an open file is the one that its first four bytes
/// announce, and every field of its header is read in that order; the
/// chromosome tree and the spatial index each go by their own signature.
pub proof fn law_byte_order_follows_the_signature(data: Seq<u8>)
    ensures
        file_header(data) matches Ok(header) ==> {
            &&& header.big_endian <==> data.subrange(0, 4) == BIGBED_SIG@
            &&& !header.big_endian <==> data.subrange(0, 4) == BIGBED_SIG@.reverse()
            &&& header.version == u16_at(data, 4, header.big_endian)
            &&& header.zoom_levels == u16_at(data, 6, header.big_endian)
            &&& header.chrom_tree_offset == u64_at(data, 8, header.big_endian)
            &&& header.unzoomed_data_offset == u64_at(data, 16, header.big_endian)
            &&& header.unzoomed_index_offset == u64_at(data, 24, header.big_endian)
            &&& header.uncompress_buf_size == u32_at(data, 52, header.big_endian)
            &&& header.chrom_bpt.big_endian <==> data.subrange(
                header.chrom_tree_offset as int,
                header.chrom_tree_offset + 4,
            ) == BPT_SIG@
            &&& header.chrom_bpt.key_size == u32_at(
                data,
                header.chrom_tree_offset + 8,
                header.chrom_bpt.big_endian,
            )
        },
{
    law_signature_names_one_order(data.subrange(0, 4));
    match file_header(data) {
        Ok(header) => {
            law_signature_names_one_order(
                data.subrange(header.chrom_tree_offset as int, header.chrom_tree_offset + 4),
            );
        },
        Err(_) => {},
    }
}

/// The byte order of the spatial index is the one that its own signature
/// announces, and its fields are read in that order.
pub proof fn law_index_byte_order_follows_its_signature(data: Seq<u8>, at: u64)
    ensures
        cir_header_at(data, at as int) matches Ok(tree) ==> {
            &&& tree.big_endian <==> data.subrange(at as int, at + 4) == CIRTREE_SIG@
            &&& !tree.big_endian <==> data.subrange(at as int, at + 4) == CIRTREE_SIG@.reverse()
            &&& tree.block_size == u32_at(data, at + 4, tree.big_endian)
            &&& tree.item_count == u64_at(data, at + 8, tree.big_endian)
            &&& tree.root_offset == at + 48
        },
{
    law_signature_names_one_order(data.subrange(at as int, at + 4));
}

} // verus!
