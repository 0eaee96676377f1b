//! The chromosome index: a B+ tree in the file that maps names, stored as
//! keys of one fixed width, to a chromosome's number and length.

use vstd::prelude::*;
use vstd::slice::slice_subrange;
use vstd::slice::slice_to_vec;
use vstd::utf8::{decode_utf8, encode_utf8, valid_utf8};
use crate::byteorder::{decode_u32, decode_u64, detect_byte_order, four_bytes, signature_order, u32_at, u64_at};
use crate::error::{eof_error, lemma_then_extend_empty, lemma_then_extend_twice, misc_error, seek_error, then_extend, Error, ErrorView};
use crate::keys::{is_key_equal, is_key_less, key_less, lemma_padded_name_is_utf8, pad_key, padded_key, string_from_utf8};
use crate::node::{node_at, read_node, BLOCK_REVISITED};
use crate::reader::ByteReader;

verus! {

/// The signature that opens the chromosome tree, as a big-endian file has it.
pub const BPT_SIG: [u8; 4] = [0x78, 0xCA, 0x8C, 0x91];

/// The message of the failure on a key that is not UTF-8.
pub const NAME_NOT_UTF8: &'static str = "chromosome name is not valid UTF-8";

/// The message of the failure on a tree whose values are not 8 bytes wide.
pub const VALUE_WIDTH_NOT_8: &'static str = "Expected chromosome data to be 8 bytes";

/// A chromosome as the tree records it.
#[derive(Debug, Clone, PartialEq)]
pub struct Chrom {
    /// The key as stored, with the zero bytes that pad it.
    pub name: String,
    pub id: u32,
    /// The length in bases.
    pub size: u32,
}

/// A [`Chrom`] with its name as a sequence of characters.
pub struct ChromView {
    pub name: Seq<char>,
    pub id: u32,
    pub size: u32,
}

impl View for Chrom {
    type V = ChromView;

    open spec fn view(&self) -> ChromView {
        ChromView { name: self.name@, id: self.id, size: self.size }
    }
}

/// The views of a sequence of chromosomes.
pub open spec fn chrom_views(chroms: Seq<Chrom>) -> Seq<ChromView> {
    Seq::new(chroms.len(), |i: int| chroms[i]@)
}

/// The head of the chromosome tree.
#[derive(Debug, Clone, Copy, PartialEq, Eq, Structural)]
pub struct BPlusTreeFile {
    pub big_endian: bool,
    pub block_size: u32,
    /// The width of every key, in bytes.
    pub key_size: u32,
    /// The width of every value, in bytes.
    pub val_size: u32,
    pub item_count: u64,
    /// Where the root block starts.
    pub root_offset: u64,
}

/// The width of an entry of a block: a key, then 8 bytes.
pub open spec fn entry_width(tree: BPlusTreeFile) -> int {
    tree.key_size + 8
}

/// Where entry `i` starts among the entries of a block.
pub open spec fn entry_start(tree: BPlusTreeFile, i: int) -> int {
    i * entry_width(tree)
}

/// The key of entry `i`.
pub open spec fn key_in(body: Seq<u8>, tree: BPlusTreeFile, i: int) -> Seq<u8> {
    body.subrange(entry_start(tree, i), entry_start(tree, i) + tree.key_size)
}

/// The chromosome that entry `i` of a leaf records.
pub open spec fn chrom_in(body: Seq<u8>, tree: BPlusTreeFile, i: int) -> ChromView {
    ChromView {
        name: decode_utf8(key_in(body, tree, i)),
        id: u32_at(body, entry_start(tree, i) + tree.key_size, tree.big_endian),
        size: u32_at(body, entry_start(tree, i) + tree.key_size + 4, tree.big_endian),
    }
}

/// The offset of the block that entry `i` of an inner block points to.
pub open spec fn child_in(body: Seq<u8>, tree: BPlusTreeFile, i: int) -> u64 {
    u64_at(body, entry_start(tree, i) + tree.key_size, tree.big_endian)
}

/// Whether the first `count` keys are all UTF-8.
pub open spec fn names_valid(body: Seq<u8>, tree: BPlusTreeFile, count: int) -> bool {
    forall|i: int| 0 <= i < count ==> valid_utf8(#[trigger] key_in(body, tree, i))
}

/// The chromosomes of a leaf, in the order of its entries.
pub open spec fn leaf_chroms(body: Seq<u8>, tree: BPlusTreeFile, count: int) -> Seq<ChromView> {
    Seq::new(count as nat, |i: int| chrom_in(body, tree, i))
}

/// The children of an inner block, in the order of its entries.
pub open spec fn children(body: Seq<u8>, tree: BPlusTreeFile, count: int) -> Seq<u64> {
    Seq::new(count as nat, |i: int| child_in(body, tree, i))
}

/// The chromosomes found by working off the blocks in `pending`, last one
/// first, visiting at most `fuel` blocks: a leaf gives its entries, an inner
/// block puts its children on the list.
pub open spec fn walk_chroms(
    data: Seq<u8>,
    tree: BPlusTreeFile,
    pending: Seq<u64>,
    fuel: nat,
) -> Result<Seq<ChromView>, ErrorView>
    decreases fuel,
{
    if pending.len() == 0 {
        Ok(Seq::empty())
    } else if fuel == 0 {
        Err(misc_error(BLOCK_REVISITED))
    } else {
        match node_at(
            data,
            pending.last() as int,
            entry_width(tree),
            entry_width(tree),
            tree.big_endian,
        ) {
            Err(e) => Err(e),
            Ok(node) => if node.is_leaf {
                if !names_valid(node.body, tree, node.count) {
                    Err(misc_error(NAME_NOT_UTF8))
                } else {
                    then_extend(
                        leaf_chroms(node.body, tree, node.count),
                        walk_chroms(data, tree, pending.drop_last(), (fuel - 1) as nat),
                    )
                }
            } else {
                walk_chroms(
                    data,
                    tree,
                    pending.drop_last() + children(node.body, tree, node.count),
                    (fuel - 1) as nat,
                )
            },
        }
    }
}

/// Every chromosome of the tree in `data`.
pub open spec fn all_chroms(data: Seq<u8>, tree: BPlusTreeFile) -> Result<
    Seq<ChromView>,
    ErrorView,
> {
    if tree.val_size != 8 {
        Err(misc_error(VALUE_WIDTH_NOT_8))
    } else {
        walk_chroms(data, tree, seq![tree.root_offset], data.len())
    }
}

/// The first entry from `i` on whose key is `key`.
pub open spec fn leaf_search(
    body: Seq<u8>,
    tree: BPlusTreeFile,
    count: int,
    key: Seq<u8>,
    i: int,
) -> Option<int>
    decreases count - i,
{
    if i >= count {
        None
    } else if key_in(body, tree, i) == key {
        Some(i)
    } else {
        leaf_search(body, tree, count, key, i + 1)
    }
}

/// The child to go down to for `key`, looking at the entries from `i` on:
/// the one before the first entry whose key is greater than `key`.
pub open spec fn pick_child(
    body: Seq<u8>,
    tree: BPlusTreeFile,
    count: int,
    key: Seq<u8>,
    i: int,
) -> Option<u64>
    decreases count - i,
{
    if i >= count {
        None
    } else if key_less(key, key_in(body, tree, i)) {
        Some(child_in(body, tree, i - 1))
    } else {
        pick_child(body, tree, count, key, i + 1)
    }
}

/// The entry for `key` below the block at `at`, going down one path of at
/// most `fuel` blocks.
pub open spec fn descend(
    data: Seq<u8>,
    tree: BPlusTreeFile,
    key: Seq<u8>,
    at: u64,
    fuel: nat,
) -> Result<Option<ChromView>, ErrorView>
    decreases fuel,
{
    if fuel == 0 {
        Err(misc_error(BLOCK_REVISITED))
    } else {
        match node_at(data, at as int, entry_width(tree), entry_width(tree), tree.big_endian) {
            Err(e) => Err(e),
            Ok(node) => if node.is_leaf {
                match leaf_search(node.body, tree, node.count, key, 0) {
                    Some(i) => Ok(Some(chrom_in(node.body, tree, i))),
                    None => Ok(None),
                }
            } else {
                match pick_child(node.body, tree, node.count, key, 1) {
                    Some(child) => descend(data, tree, key, child, (fuel - 1) as nat),
                    None => Ok(None),
                }
            },
        }
    }
}

/// The chromosome called `name`, if the tree in `data` has it.
pub open spec fn lookup(data: Seq<u8>, tree: BPlusTreeFile, name: Seq<char>) -> Result<
    Option<ChromView>,
    ErrorView,
> {
    if encode_utf8(name).len() > tree.key_size {
        Err(ErrorView::BadKey(name, tree.key_size as usize))
    } else if tree.val_size != 8 {
        Err(misc_error(VALUE_WIDTH_NOT_8))
    } else {
        descend(
            data,
            tree,
            padded_key(encode_utf8(name), tree.key_size as int),
            tree.root_offset,
            data.len(),
        )
    }
}

/// The head of a chromosome tree that starts at offset `at` of `data`.
pub open spec fn bpt_header_at(data: Seq<u8>, at: int) -> Result<BPlusTreeFile, ErrorView> {
    if at + 4 > data.len() {
        Err(eof_error())
    } else {
        match signature_order(data.subrange(at, at + 4), BPT_SIG@) {
            None => Err(
                ErrorView::BadSig { expected: BPT_SIG@, received: data.subrange(at, at + 4) },
            ),
            Some(big_endian) => if at + 24 > data.len() {
                Err(eof_error())
            } else if at + 32 > u64::MAX {
                Err(seek_error())
            } else {
                Ok(
                    BPlusTreeFile {
                        big_endian,
                        block_size: u32_at(data, at + 4, big_endian),
                        key_size: u32_at(data, at + 8, big_endian),
                        val_size: u32_at(data, at + 12, big_endian),
                        item_count: u64_at(data, at + 16, big_endian),
                        root_offset: (at + 32) as u64,
                    },
                )
            },
        }
    }
}

/// The chromosomes of a leaf whose entries are `body`.
fn decode_leaf(body: &[u8], tree: &BPlusTreeFile, count: u16) -> (r: Result<Vec<Chrom>, Error>)
    requires
        body@.len() == count * entry_width(*tree),
    ensures
        match r {
            Ok(chroms) => names_valid(body@, *tree, count as int) && chrom_views(chroms@)
                == leaf_chroms(body@, *tree, count as int),
            Err(e) => !names_valid(body@, *tree, count as int) && e@ == misc_error(NAME_NOT_UTF8),
        },
{
    let width: u64 = tree.key_size as u64 + 8;
    let mut chroms: Vec<Chrom> = Vec::new();
    let mut i: u16 = 0;
    let mut at: u64 = 0;
    while i < count
        invariant
            i <= count,
            width == entry_width(*tree),
            body@.len() == count * width,
            at == i * width,
            body.len() == body@.len(),
            names_valid(body@, *tree, i as int),
            chroms@.len() == i,
            chrom_views(chroms@) == leaf_chroms(body@, *tree, i as int),
        decreases count - i,
    {
        proof {
            assert((i + 1) * width == i * width + width) by (nonlinear_arith);
            assert((i + 1) * width <= count * width) by (nonlinear_arith)
                requires
                    i + 1 <= count,
                    width >= 0,
            ;
        }
        let start: usize = at as usize;
        let key_end: usize = start + tree.key_size as usize;
        let key = slice_to_vec(slice_subrange(body, start, key_end));
        assert(key@ == key_in(body@, *tree, i as int));
        let name = match string_from_utf8(key) {
            Ok(name) => name,
            Err(_) => {
                return Err(Error::Misc(NAME_NOT_UTF8));
            },
        };
        let id = decode_u32(body, key_end, tree.big_endian);
        let size = decode_u32(body, key_end + 4, tree.big_endian);
        let ghost before = chroms@;
        chroms.push(Chrom { name, id, size });
        proof {
            assert(chroms@[i as int]@ == chrom_in(body@, *tree, i as int));
            assert forall|j: int| 0 <= j < i + 1 implies chrom_views(chroms@)[j] == leaf_chroms(
                body@,
                *tree,
                i + 1,
            )[j] by {
                if j < i {
                    assert(chroms@[j] == before[j]);
                    assert(chrom_views(before)[j] == leaf_chroms(body@, *tree, i as int)[j]);
                }
            }
            assert(chrom_views(chroms@) =~= leaf_chroms(body@, *tree, i + 1));
        }
        i = i + 1;
        at = at + width;
    }
    Ok(chroms)
}

/// Puts the children of an inner block whose entries are `body` on
/// `pending`, in the order of the entries.
fn push_children(body: &[u8], tree: &BPlusTreeFile, count: u16, pending: &mut Vec<u64>)
    requires
        body@.len() == count * entry_width(*tree),
    ensures
        final(pending)@ == old(pending)@ + children(body@, *tree, count as int),
{
    let width: u64 = tree.key_size as u64 + 8;
    let mut i: u16 = 0;
    let mut at: u64 = 0;
    assert(pending@ =~= old(pending)@ + children(body@, *tree, 0));
    while i < count
        invariant
            i <= count,
            width == entry_width(*tree),
            body@.len() == count * width,
            at == i * width,
            body.len() == body@.len(),
            pending@ == old(pending)@ + children(body@, *tree, i as int),
        decreases count - i,
    {
        proof {
            assert((i + 1) * width == i * width + width) by (nonlinear_arith);
            assert((i + 1) * width <= count * width) by (nonlinear_arith)
                requires
                    i + 1 <= count,
                    width >= 0,
            ;
        }
        let child = decode_u64(body, (at + tree.key_size as u64) as usize, tree.big_endian);
        pending.push(child);
        assert(pending@ =~= old(pending)@ + children(body@, *tree, i + 1));
        i = i + 1;
        at = at + width;
    }
}

/// Looks for `key` among the entries of a leaf.
fn search_leaf(body: &[u8], tree: &BPlusTreeFile, count: u16, key: &[u8]) -> (r: Option<Chrom>)
    requires
        body@.len() == count * entry_width(*tree),
        valid_utf8(key@),
    ensures
        match leaf_search(body@, *tree, count as int, key@, 0) {
            Some(i) => r matches Some(chrom) && chrom@ == chrom_in(body@, *tree, i),
            None => r is None,
        },
{
    let width: u64 = tree.key_size as u64 + 8;
    let mut i: u16 = 0;
    let mut at: u64 = 0;
    while i < count
        invariant
            i <= count,
            width == entry_width(*tree),
            body@.len() == count * width,
            at == i * width,
            body.len() == body@.len(),
            valid_utf8(key@),
            leaf_search(body@, *tree, count as int, key@, 0) == leaf_search(
                body@,
                *tree,
                count as int,
                key@,
                i as int,
            ),
        decreases count - i,
    {
        proof {
            assert((i + 1) * width == i * width + width) by (nonlinear_arith);
            assert((i + 1) * width <= count * width) by (nonlinear_arith)
                requires
                    i + 1 <= count,
                    width >= 0,
            ;
        }
        let start: usize = at as usize;
        let key_end: usize = start + tree.key_size as usize;
        let stored = slice_subrange(body, start, key_end);
        assert(stored@ == key_in(body@, *tree, i as int));
        if is_key_equal(stored, key) {
            let id = decode_u32(body, key_end, tree.big_endian);
            let size = decode_u32(body, key_end + 4, tree.big_endian);
            match string_from_utf8(slice_to_vec(stored)) {
                Ok(name) => {
                    return Some(Chrom { name, id, size });
                },
                Err(_) => {
                    assert(false);
                },
            }
        }
        i = i + 1;
        at = at + width;
    }
    None
}

/// Chooses the child of an inner block to go down to for `key`.
fn choose_child(body: &[u8], tree: &BPlusTreeFile, count: u16, key: &[u8]) -> (r: Option<u64>)
    requires
        body@.len() == count * entry_width(*tree),
    ensures
        r == pick_child(body@, *tree, count as int, key@, 1),
{
    if count == 0 {
        return None;
    }
    let width: u64 = tree.key_size as u64 + 8;
    let mut i: u16 = 1;
    let mut at: u64 = width;
    assert(1 * width == width) by (nonlinear_arith);
    while i < count
        invariant
            1 <= i <= count,
            width == entry_width(*tree),
            body@.len() == count * width,
            at == i * width,
            body.len() == body@.len(),
            pick_child(body@, *tree, count as int, key@, 1) == pick_child(
                body@,
                *tree,
                count as int,
                key@,
                i as int,
            ),
        decreases count - i,
    {
        proof {
            assert((i + 1) * width == i * width + width) by (nonlinear_arith);
            assert((i - 1) * width == i * width - width) by (nonlinear_arith);
            assert((i + 1) * width <= count * width) by (nonlinear_arith)
                requires
                    i + 1 <= count,
                    width >= 0,
            ;
        }
        let start: usize = at as usize;
        let stored = slice_subrange(body, start, start + tree.key_size as usize);
        assert(stored@ == key_in(body@, *tree, i as int));
        if is_key_less(key, stored) {
            let before: u64 = at - width;
            let child = decode_u64(body, (before + tree.key_size as u64) as usize, tree.big_endian);
            return Some(child);
        }
        i = i + 1;
        at = at + width;
    }
    None
}

impl BPlusTreeFile {
    /// Reads the head of a chromosome tree at the reader's position: the
    /// signature, which fixes the byte order, four fields, and 8 unused bytes,
    /// after which the root block starts.
    pub fn with_reader(reader: &mut ByteReader) -> (r: Result<BPlusTreeFile, Error>)
        ensures
            final(reader).bytes() == old(reader).bytes(),
            match r {
                Ok(tree) => bpt_header_at(old(reader).bytes(), old(reader).position() as int)
                    == Ok::<BPlusTreeFile, ErrorView>(tree),
                Err(e) => bpt_header_at(old(reader).bytes(), old(reader).position() as int)
                    == Err::<BPlusTreeFile, ErrorView>(e@),
            },
    {
        let buf = reader.read_exact(4)?;
        let received = four_bytes(&buf);
        let big_endian = match detect_byte_order(&received, &BPT_SIG) {
            Some(order) => order,
            None => {
                return Err(Error::BadSig { expected: BPT_SIG, received });
            },
        };
        let block_size = reader.read_u32(big_endian)?;
        let key_size = reader.read_u32(big_endian)?;
        let val_size = reader.read_u32(big_endian)?;
        let item_count = reader.read_u64(big_endian)?;
        let root_offset = reader.seek_current(8)?;
        Ok(BPlusTreeFile { big_endian, block_size, key_size, val_size, item_count, root_offset })
    }

    /// Every chromosome of the tree: the entries of its leaves, gathered by
    /// working off a list of blocks still to visit, which starts with the root.
    /// A walk that visits more blocks than the file has bytes is given up.
    pub fn chrom_list(&self, reader: &mut ByteReader) -> (r: Result<Vec<Chrom>, Error>)
        ensures
            final(reader).bytes() == old(reader).bytes(),
            match r {
                Ok(chroms) => all_chroms(old(reader).bytes(), *self) == Ok::<
                    Seq<ChromView>,
                    ErrorView,
                >(chrom_views(chroms@)),
                Err(e) => all_chroms(old(reader).bytes(), *self) == Err::<
                    Seq<ChromView>,
                    ErrorView,
                >(e@),
            },
    {
        if self.val_size != 8 {
            return Err(Error::Misc(VALUE_WIDTH_NOT_8));
        }
        let ghost data = reader.bytes();
        let ghost goal = all_chroms(data, *self);
        let width: u64 = self.key_size as u64 + 8;
        let mut chroms: Vec<Chrom> = Vec::new();
        let mut pending: Vec<u64> = Vec::new();
        pending.push(self.root_offset);
        let mut fuel: usize = reader.len();
        proof {
            assert(pending@ =~= seq![self.root_offset]);
            assert(chrom_views(chroms@) =~= Seq::<ChromView>::empty());
            lemma_then_extend_empty(Seq::<ChromView>::empty(), goal);
        }
        while pending.len() > 0
            invariant
                reader.bytes() == data,
                data == old(reader).bytes(),
                goal == all_chroms(data, *self),
                width == entry_width(*self),
                goal == then_extend(
                    chrom_views(chroms@),
                    walk_chroms(data, *self, pending@, fuel as nat),
                ),
            decreases fuel,
        {
            if fuel == 0 {
                return Err(Error::Misc(BLOCK_REVISITED));
            }
            fuel = fuel - 1;
            let ghost before_pending = pending@;
            let at = pending.pop().unwrap();
            assert(pending@ == before_pending.drop_last());
            let node = match read_node(reader, at, width, width, self.big_endian) {
                Ok(node) => node,
                Err(e) => {
                    return Err(e);
                },
            };
            if node.is_leaf {
                let mut found = match decode_leaf(node.body.as_slice(), self, node.count) {
                    Ok(found) => found,
                    Err(e) => {
                        return Err(e);
                    },
                };
                let ghost before = chroms@;
                let ghost added = found@;
                chroms.append(&mut found);
                proof {
                    assert(chrom_views(chroms@) =~= chrom_views(before) + chrom_views(added));
                    lemma_then_extend_twice(
                        chrom_views(before),
                        chrom_views(added),
                        walk_chroms(data, *self, pending@, fuel as nat),
                    );
                }
            } else {
                push_children(node.body.as_slice(), self, node.count, &mut pending);
            }
        }
        Ok(chroms)
    }

    /// The chromosome called `chrom`, or `None` where the tree has no such
    /// key. The name is padded with zero bytes to the width of the keys
    /// before it is compared; a longer name is refused.
    pub fn find(&self, chrom: &str, reader: &mut ByteReader) -> (r: Result<Option<Chrom>, Error>)
        ensures
            final(reader).bytes() == old(reader).bytes(),
            match r {
                Ok(Some(found)) => lookup(old(reader).bytes(), *self, chrom@) == Ok::<
                    Option<ChromView>,
                    ErrorView,
                >(Some(found@)),
                Ok(None) => lookup(old(reader).bytes(), *self, chrom@) == Ok::<
                    Option<ChromView>,
                    ErrorView,
                >(None),
                Err(e) => lookup(old(reader).bytes(), *self, chrom@) == Err::<
                    Option<ChromView>,
                    ErrorView,
                >(e@),
            },
    {
        let raw = chrom.as_bytes();
        if raw.len() > self.key_size as usize {
            return Err(Error::BadKey(chrom.to_owned(), self.key_size as usize));
        }
        if self.val_size != 8 {
            return Err(Error::Misc(VALUE_WIDTH_NOT_8));
        }
        let key = pad_key(chrom, self.key_size as usize);
        proof {
            lemma_padded_name_is_utf8(chrom@, self.key_size as int);
        }
        self.find_internal(key.as_slice(), reader)
    }

    /// Goes down from the root along the one path that can hold `key`.
    fn find_internal(&self, key: &[u8], reader: &mut ByteReader) -> (r: Result<
        Option<Chrom>,
        Error,
    >)
        requires
            valid_utf8(key@),
        ensures
            final(reader).bytes() == old(reader).bytes(),
            match r {
                Ok(Some(found)) => descend(
                    old(reader).bytes(),
                    *self,
                    key@,
                    self.root_offset,
                    old(reader).bytes().len(),
                ) == Ok::<Option<ChromView>, ErrorView>(Some(found@)),
                Ok(None) => descend(
                    old(reader).bytes(),
                    *self,
                    key@,
                    self.root_offset,
                    old(reader).bytes().len(),
                ) == Ok::<Option<ChromView>, ErrorView>(None),
                Err(e) => descend(
                    old(reader).bytes(),
                    *self,
                    key@,
                    self.root_offset,
                    old(reader).bytes().len(),
                ) == Err::<Option<ChromView>, ErrorView>(e@),
            },
    {
        let ghost data = reader.bytes();
        let ghost goal = descend(data, *self, key@, self.root_offset, data.len());
        let width: u64 = self.key_size as u64 + 8;
        let mut at: u64 = self.root_offset;
        let mut fuel: usize = reader.len();
        loop
            invariant
                reader.bytes() == data,
                data == old(reader).bytes(),
                goal == descend(data, *self, key@, self.root_offset, data.len()),
                width == entry_width(*self),
                valid_utf8(key@),
                goal == descend(data, *self, key@, at, fuel as nat),
            decreases fuel,
        {
            if fuel == 0 {
                return Err(Error::Misc(BLOCK_REVISITED));
            }
            fuel = fuel - 1;
            let node = match read_node(reader, at, width, width, self.big_endian) {
                Ok(node) => node,
                Err(e) => {
                    return Err(e);
                },
            };
            if node.is_leaf {
                return Ok(search_leaf(node.body.as_slice(), self, node.count, key));
            }
            match choose_child(node.body.as_slice(), self, node.count, key) {
                Some(child) => {
                    at = child;
                },
                None => {
                    return Ok(None);
                },
            }
        }
    }
}

} // verus!
