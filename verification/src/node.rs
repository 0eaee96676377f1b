//! A block of an index tree as it lies in the file: a four-byte head (leaf
//! flag, one unused byte, a 16-bit entry count) and then the entries, all of
//! one width that depends on whether the block is a leaf.

use vstd::prelude::*;
use crate::byteorder::u16_at;
use crate::error::{eof_error, Error, ErrorView};
use crate::reader::ByteReader;

verus! {

/// The message of the failure of a walk that has visited more blocks than
/// the file has bytes: some block is reachable twice.
pub const BLOCK_REVISITED: &'static str = "index tree reaches a block more than once";

/// One block of a tree, read whole.
pub struct Node {
    pub is_leaf: bool,
    pub count: u16,
    /// The entries, `count` times the entry width.
    pub body: Vec<u8>,
}

/// What a [`Node`] holds.
pub struct NodeView {
    pub is_leaf: bool,
    pub count: int,
    pub body: Seq<u8>,
}

impl View for Node {
    type V = NodeView;

    open spec fn view(&self) -> NodeView {
        NodeView { is_leaf: self.is_leaf, count: self.count as int, body: self.body@ }
    }
}

/// The width of the entries of the block at `at`.
pub open spec fn entry_width_at(data: Seq<u8>, at: int, leaf_width: int, inner_width: int) -> int {
    if data[at] != 0 {
        leaf_width
    } else {
        inner_width
    }
}

/// The block at offset `at` of `data`, or the failure of the read where the
/// head or the entries reach beyond the end of the data.
pub open spec fn node_at(
    data: Seq<u8>,
    at: int,
    leaf_width: int,
    inner_width: int,
    big_endian: bool,
) -> Result<NodeView, ErrorView> {
    let count = u16_at(data, at + 2, big_endian) as int;
    let width = entry_width_at(data, at, leaf_width, inner_width);
    if at + 4 > data.len() {
        Err(eof_error())
    } else if at + 4 + count * width > data.len() {
        Err(eof_error())
    } else {
        Ok(
            NodeView {
                is_leaf: data[at] != 0,
                count,
                body: data.subrange(at + 4, at + 4 + count * width),
            },
        )
    }
}

/// Reads the block at offset `at`: its head, then all its entries in one
/// read.
pub(crate) fn read_node(
    reader: &mut ByteReader,
    at: u64,
    leaf_width: u64,
    inner_width: u64,
    big_endian: bool,
) -> (r: Result<Node, Error>)
    requires
        leaf_width <= 0x1_0000_0000_0000,
        inner_width <= 0x1_0000_0000_0000,
    ensures
        final(reader).bytes() == old(reader).bytes(),
        match r {
            Ok(node) => node_at(
                old(reader).bytes(),
                at as int,
                leaf_width as int,
                inner_width as int,
                big_endian,
            ) == Ok::<NodeView, ErrorView>(node@),
            Err(e) => node_at(
                old(reader).bytes(),
                at as int,
                leaf_width as int,
                inner_width as int,
                big_endian,
            ) == Err::<NodeView, ErrorView>(e@),
        },
{
    reader.seek_start(at);
    let flag: u8 = reader.read_u8()?;
    let _unused: u8 = reader.read_u8()?;
    let count: u16 = reader.read_u16(big_endian)?;
    let width: u64 = if flag != 0 {
        leaf_width
    } else {
        inner_width
    };
    assert(count as int * width as int <= 0xffff * 0x1_0000_0000_0000) by (nonlinear_arith)
        requires
            0 <= count <= 0xffff,
            0 <= width <= 0x1_0000_0000_0000,
    ;
    let body = reader.read_exact(count as u64 * width)?;
    Ok(Node { is_leaf: flag != 0, count, body })
}

} // verus!
