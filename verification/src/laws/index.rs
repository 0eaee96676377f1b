//! Laws of the spatial index: it gives every block that it must, and
//! nothing where nothing meets the range.

use vstd::prelude::*;
use crate::bigbed::{padded_end, padded_start, query_result, FileHeader};
use crate::cirtree::{blocks_for, bounds_at, cir_header_at, entries_fit, entry_block, hit_blocks, hit_children, inner_entries, inner_entry, inner_hit, leaf_entries, leaf_entry, leaf_hit, overlaps, position_before, walk_blocks, Bounds, CIRTreeFile, FileOffsetSize, LeafEntry};
use crate::error::ErrorView;
use crate::node::{node_at, NodeView};
use crate::records::record_wanted;

verus! {

/// Whether position `base_a` on chromosome `chrom_a` is position `base_b`
/// on chromosome `chrom_b` or comes before it.
pub open spec fn position_at_or_before(chrom_a: u32, base_a: u32, chrom_b: u32, base_b: u32)
    -> bool {
    chrom_a < chrom_b || (chrom_a == chrom_b && base_a <= base_b)
}

/// Whether the record from `rec_start` to `rec_end` on chromosome
/// `chrom_id` lies within the bounds.
pub open spec fn record_within(chrom_id: u32, rec_start: u32, rec_end: u32, bounds: Bounds)
    -> bool {
    position_at_or_before(bounds.start_chrom, bounds.start_base, chrom_id, rec_start)
        && position_at_or_before(chrom_id, rec_end, bounds.end_chrom, bounds.end_base)
}

/// The test of the spatial index errs on the safe side only: bounds that
/// hold a record which overlaps a range meet that range.
pub proof fn law_bounds_of_an_overlapping_record_meet_the_range(
    chrom_id: u32,
    start: u32,
    end: u32,
    rec_start: u32,
    rec_end: u32,
    bounds: Bounds,
)
    requires
        record_within(chrom_id, rec_start, rec_end, bounds),
        rec_start < end,
        rec_end > start,
    ensures
        overlaps(chrom_id, start, end, bounds),
{
}

/// Why a query pads its range: bounds that hold a record which belongs to
/// the answer meet the range widened by one base on each side. This fails
/// only for a range that cannot be widened: an empty record at position zero
/// under bounds that end there, and a range that ends at the last position.
pub proof fn law_bounds_of_a_wanted_record_meet_the_padded_range(
    chrom_id: u32,
    start: u32,
    end: u32,
    rec_start: u32,
    rec_end: u32,
    bounds: Bounds,
)
    requires
        record_within(chrom_id, rec_start, rec_end, bounds),
        record_wanted(chrom_id, start, end, chrom_id, rec_start, rec_end),
        start <= end,
        end < u32::MAX,
        rec_end > 0 || position_before(chrom_id, 0, bounds.end_chrom, bounds.end_base),
    ensures
        overlaps(
            chrom_id,
            padded_start(start),
            padded_end(end),
            bounds,
        ),
{
}

/// Whether `block` is the block of an entry whose bounds meet the range.
pub open spec fn comes_from_a_hit(
    entries: Seq<LeafEntry>,
    chrom_id: u32,
    start: u32,
    end: u32,
    block: FileOffsetSize,
) -> bool {
    exists|i: int|
        0 <= i < entries.len() && overlaps(chrom_id, start, end, (#[trigger] entries[i]).bounds)
            && block == entry_block()(entries[i])
}

/// A leaf gives the block of every entry whose bounds meet the range, and of
/// no other entry.
pub proof fn law_leaf_gives_the_entries_that_meet_the_range(
    entries: Seq<LeafEntry>,
    chrom_id: u32,
    start: u32,
    end: u32,
)
    ensures
        forall|i: int|
            0 <= i < entries.len() && overlaps(chrom_id, start, end, (#[trigger] entries[i]).bounds)
                ==> hit_blocks(entries, chrom_id, start, end).contains(entry_block()(entries[i])),
        forall|j: int|
            0 <= j < hit_blocks(entries, chrom_id, start, end).len() ==> comes_from_a_hit(
                entries,
                chrom_id,
                start,
                end,
                #[trigger] hit_blocks(entries, chrom_id, start, end)[j],
            ),
{
    let hit = leaf_hit(chrom_id, start, end);
    let kept = entries.filter(hit);
    let blocks = hit_blocks(entries, chrom_id, start, end);
    assert forall|i: int|
        0 <= i < entries.len() && overlaps(
            chrom_id,
            start,
            end,
            (#[trigger] entries[i]).bounds,
        ) implies blocks.contains(entry_block()(entries[i])) by {
        entries.lemma_filter_contains(hit, i);
        let k = choose|k: int| 0 <= k < kept.len() && kept[k] == entries[i];
        assert(blocks[k] == entry_block()(entries[i]));
    }
    assert forall|j: int| 0 <= j < blocks.len() implies comes_from_a_hit(
        entries,
        chrom_id,
        start,
        end,
        #[trigger] blocks[j],
    ) by {
        entries.lemma_filter_pred(hit, j);
        assert(kept.contains(kept[j]));
        entries.lemma_filter_contains_rev(hit, kept[j]);
        let i = choose|i: int| 0 <= i < entries.len() && entries[i] == kept[j];
        assert(overlaps(chrom_id, start, end, entries[i].bounds));
        assert(blocks[j] == entry_block()(entries[i]));
    }
}

/// Whether `path` leads from the block at `at` down to an entry of a leaf,
/// through entries whose bounds all meet the range: `path` holds the index
/// of the entry taken in each block on the way.
pub open spec fn path_meets_range(
    data: Seq<u8>,
    big_endian: bool,
    chrom_id: u32,
    start: u32,
    end: u32,
    at: u64,
    path: Seq<int>,
) -> bool
    decreases path.len(),
{
    path.len() > 0 && match node_at(data, at as int, 32, 24, big_endian) {
        Err(_) => false,
        Ok(node) => 0 <= path[0] < node.count && if path.len() == 1 {
            node.is_leaf && overlaps(
                chrom_id,
                start,
                end,
                leaf_entry(node.body, big_endian, path[0]).bounds,
            )
        } else {
            !node.is_leaf && overlaps(
                chrom_id,
                start,
                end,
                inner_entry(node.body, big_endian, path[0]).bounds,
            ) && path_meets_range(
                data,
                big_endian,
                chrom_id,
                start,
                end,
                inner_entry(node.body, big_endian, path[0]).child,
                path.drop_first(),
            )
        },
    }
}

/// The data block of the leaf entry that `path` leads to from the block at
/// `at`.
pub open spec fn block_on_path(data: Seq<u8>, big_endian: bool, at: u64, path: Seq<int>)
    -> FileOffsetSize
    decreases path.len(),
{
    match node_at(data, at as int, 32, 24, big_endian) {
        Err(_) => FileOffsetSize { offset: 0, size: 0 },
        Ok(node) => if path.len() <= 1 {
            entry_block()(leaf_entry(node.body, big_endian, path[0]))
        } else {
            block_on_path(
                data,
                big_endian,
                inner_entry(node.body, big_endian, path[0]).child,
                path.drop_first(),
            )
        },
    }
}

/// Where a walk ends well, it has given the block at the end of every path
/// that starts at a block on its list and meets the range all the way.
pub proof fn lemma_walk_gives_the_block_on_a_path(
    data: Seq<u8>,
    tree: CIRTreeFile,
    chrom_id: u32,
    start: u32,
    end: u32,
    pending: Seq<u64>,
    fuel: nat,
    which: int,
    path: Seq<int>,
    blocks: Seq<FileOffsetSize>,
)
    requires
        0 <= which < pending.len(),
        path_meets_range(data, tree.big_endian, chrom_id, start, end, pending[which], path),
        walk_blocks(data, tree, chrom_id, start, end, pending, fuel) == Ok::<
            Seq<FileOffsetSize>,
            ErrorView,
        >(blocks),
    ensures
        blocks.contains(block_on_path(data, tree.big_endian, pending[which], path)),
    decreases fuel,
{
    let be = tree.big_endian;
    let wanted = block_on_path(data, be, pending[which], path);
    let rest = pending.drop_last();
    let node = node_at(data, pending.last() as int, 32, 24, be)->Ok_0;
    if node.is_leaf {
        let entries = leaf_entries(node.body, be, node.count);
        let hits = hit_blocks(entries, chrom_id, start, end);
        let tail = walk_blocks(data, tree, chrom_id, start, end, rest, (fuel - 1) as nat)->Ok_0;
        assert(blocks == hits + tail);
        if which == pending.len() - 1 {
            law_leaf_gives_the_entries_that_meet_the_range(entries, chrom_id, start, end);
            assert(entries[path[0]] == leaf_entry(node.body, be, path[0]));
            assert(hits.contains(wanted));
            let k = choose|k: int| 0 <= k < hits.len() && hits[k] == wanted;
            assert(blocks[k] == wanted);
        } else {
            assert(rest[which] == pending[which]);
            lemma_walk_gives_the_block_on_a_path(
                data,
                tree,
                chrom_id,
                start,
                end,
                rest,
                (fuel - 1) as nat,
                which,
                path,
                tail,
            );
            let k = choose|k: int| 0 <= k < tail.len() && tail[k] == wanted;
            assert(blocks[hits.len() + k] == wanted);
        }
    } else {
        let entries = inner_entries(node.body, be, node.count);
        let hit = inner_hit(chrom_id, start, end);
        let kids = hit_children(entries, chrom_id, start, end);
        let next = rest + kids;
        if which == pending.len() - 1 {
            let entry = inner_entry(node.body, be, path[0]);
            assert(entries[path[0]] == entry);
            entries.lemma_filter_contains(hit, path[0]);
            let kept = entries.filter(hit);
            let k = choose|k: int| 0 <= k < kept.len() && kept[k] == entry;
            assert(kids[k] == entry.child);
            assert(next[rest.len() + k] == entry.child);
            lemma_walk_gives_the_block_on_a_path(
                data,
                tree,
                chrom_id,
                start,
                end,
                next,
                (fuel - 1) as nat,
                rest.len() + k,
                path.drop_first(),
                blocks,
            );
        } else {
            assert(next[which] == pending[which]);
            lemma_walk_gives_the_block_on_a_path(
                data,
                tree,
                chrom_id,
                start,
                end,
                next,
                (fuel - 1) as nat,
                which,
                path,
                blocks,
            );
        }
    }
}

/// The spatial index misses nothing: where the answer for a range is a list
/// of blocks, it holds the block of every leaf entry that can be reached
/// from the root through entries whose bounds meet the range. In an index
/// whose bounds hold all that lies below them, these are the blocks of all
/// records that overlap the range.
pub proof fn law_index_misses_no_block(
    data: Seq<u8>,
    tree: CIRTreeFile,
    chrom_id: u32,
    start: u32,
    end: u32,
    path: Seq<int>,
    blocks: Seq<FileOffsetSize>,
)
    requires
        path_meets_range(data, tree.big_endian, chrom_id, start, end, tree.root_offset, path),
        blocks_for(data, tree, chrom_id, start, end) == Ok::<Seq<FileOffsetSize>, ErrorView>(
            blocks,
        ),
    ensures
        blocks.contains(block_on_path(data, tree.big_endian, tree.root_offset, path)),
{
    lemma_walk_gives_the_block_on_a_path(
        data,
        tree,
        chrom_id,
        start,
        end,
        seq![tree.root_offset],
        data.len(),
        0,
        path,
        blocks,
    );
}

/// The bounds of entry `i` of a block of the spatial index.
pub open spec fn bounds_of_entry(node: NodeView, big_endian: bool, i: int) -> Bounds {
    if node.is_leaf {
        bounds_at(node.body, i * 32, big_endian)
    } else {
        bounds_at(node.body, i * 24, big_endian)
    }
}

/// A range that meets no entry of the root gives no block.
pub proof fn law_range_that_meets_nothing_gives_nothing(
    data: Seq<u8>,
    tree: CIRTreeFile,
    chrom_id: u32,
    start: u32,
    end: u32,
    root: NodeView,
)
    requires
        node_at(data, tree.root_offset as int, 32, 24, tree.big_endian) == Ok::<
            NodeView,
            ErrorView,
        >(root),
        root.is_leaf ==> entries_fit(leaf_entries(root.body, tree.big_endian, root.count)),
        forall|i: int|
            0 <= i < root.count ==> !overlaps(
                chrom_id,
                start,
                end,
                #[trigger] bounds_of_entry(root, tree.big_endian, i),
            ),
    ensures
        blocks_for(data, tree, chrom_id, start, end) == Ok::<Seq<FileOffsetSize>, ErrorView>(
            Seq::empty(),
        ),
{
    let be = tree.big_endian;
    let pending = seq![tree.root_offset];
    assert(pending.drop_last() =~= Seq::<u64>::empty());
    assert(data.len() >= 4);
    if root.is_leaf {
        let entries = leaf_entries(root.body, be, root.count);
        let hits = hit_blocks(entries, chrom_id, start, end);
        law_leaf_gives_the_entries_that_meet_the_range(entries, chrom_id, start, end);
        if hits.len() > 0 {
            assert(comes_from_a_hit(entries, chrom_id, start, end, hits[0]));
            let i = choose|i: int|
                0 <= i < entries.len() && overlaps(chrom_id, start, end, (#[trigger] entries[i]).bounds)
                    && hits[0] == entry_block()(entries[i]);
            assert(entries[i].bounds == bounds_of_entry(root, be, i));
            assert(false);
        }
        assert(hits =~= Seq::<FileOffsetSize>::empty());
        assert(hits + Seq::<FileOffsetSize>::empty() =~= Seq::<FileOffsetSize>::empty());
        assert(walk_blocks(
            data,
            tree,
            chrom_id,
            start,
            end,
            Seq::<u64>::empty(),
            (data.len() - 1) as nat,
        ) == Ok::<Seq<FileOffsetSize>, ErrorView>(Seq::empty()));
    } else {
        let entries = inner_entries(root.body, be, root.count);
        let hit = inner_hit(chrom_id, start, end);
        let kept = entries.filter(hit);
        if kept.len() > 0 {
            entries.lemma_filter_pred(hit, 0);
            assert(kept.contains(kept[0]));
            entries.lemma_filter_contains_rev(hit, kept[0]);
            let i = choose|i: int| 0 <= i < entries.len() && entries[i] == kept[0];
            assert(entries[i].bounds == bounds_of_entry(root, be, i));
            assert(false);
        }
        let kids = hit_children(entries, chrom_id, start, end);
        assert(kids =~= Seq::<u64>::empty());
        assert(pending.drop_last() + kids =~= Seq::<u64>::empty());
        assert(walk_blocks(
            data,
            tree,
            chrom_id,
            start,
            end,
            Seq::<u64>::empty(),
            (data.len() - 1) as nat,
        ) == Ok::<Seq<FileOffsetSize>, ErrorView>(Seq::empty()));
    }
}

/// Reading the spatial index once and keeping it does not show in the
/// answers: where the index that is held is the one that the file has, a
/// query gives what it gives with no index held.
pub proof fn law_held_index_does_not_show(
    data: Seq<u8>,
    header: FileHeader,
    held: Option<CIRTreeFile>,
    name: Seq<char>,
    start: u32,
    end: u32,
    max_items: u32,
)
    requires
        held matches Some(tree) ==> cir_header_at(data, header.unzoomed_index_offset as int)
            == Ok::<CIRTreeFile, ErrorView>(tree),
    ensures
        query_result(data, header, held, name, start, end, max_items) == query_result(
            data,
            header,
            None,
            name,
            start,
            end,
            max_items,
        ),
{
}

/// Whether `block` lies at the end of a path that starts at one of `nodes`
/// and meets the range all the way.
pub open spec fn on_a_path_from(
    data: Seq<u8>,
    big_endian: bool,
    chrom_id: u32,
    start: u32,
    end: u32,
    nodes: Seq<u64>,
    block: FileOffsetSize,
) -> bool {
    exists|which: int, path: Seq<int>|
        0 <= which < nodes.len() && #[trigger] path_meets_range(
            data,
            big_endian,
            chrom_id,
            start,
            end,
            nodes[which],
            path,
        ) && block_on_path(data, big_endian, nodes[which], path) == block
}

/// Every block that a walk gives lies at the end of a path that starts at
/// a block on its list and meets the range all the way.
pub proof fn lemma_walk_gives_blocks_on_paths_only(
    data: Seq<u8>,
    tree: CIRTreeFile,
    chrom_id: u32,
    start: u32,
    end: u32,
    pending: Seq<u64>,
    fuel: nat,
    blocks: Seq<FileOffsetSize>,
    j: int,
)
    requires
        walk_blocks(data, tree, chrom_id, start, end, pending, fuel) == Ok::<
            Seq<FileOffsetSize>,
            ErrorView,
        >(blocks),
        0 <= j < blocks.len(),
    ensures
        on_a_path_from(data, tree.big_endian, chrom_id, start, end, pending, blocks[j]),
    decreases fuel,
{
    let be = tree.big_endian;
    let rest = pending.drop_last();
    let top = pending.len() - 1;
    let node = node_at(data, pending.last() as int, 32, 24, be)->Ok_0;
    if node.is_leaf {
        let entries = leaf_entries(node.body, be, node.count);
        let hits = hit_blocks(entries, chrom_id, start, end);
        let tail = walk_blocks(data, tree, chrom_id, start, end, rest, (fuel - 1) as nat)->Ok_0;
        assert(blocks == hits + tail);
        if j < hits.len() {
            law_leaf_gives_the_entries_that_meet_the_range(entries, chrom_id, start, end);
            assert(comes_from_a_hit(entries, chrom_id, start, end, hits[j]));
            let i = choose|i: int|
                0 <= i < entries.len() && overlaps(
                    chrom_id,
                    start,
                    end,
                    (#[trigger] entries[i]).bounds,
                ) && hits[j] == entry_block()(entries[i]);
            let path = seq![i];
            assert(entries[i] == leaf_entry(node.body, be, i));
            assert(path_meets_range(data, be, chrom_id, start, end, pending[top], path));
            assert(block_on_path(data, be, pending[top], path) == blocks[j]);
        } else {
            lemma_walk_gives_blocks_on_paths_only(
                data,
                tree,
                chrom_id,
                start,
                end,
                rest,
                (fuel - 1) as nat,
                tail,
                j - hits.len(),
            );
            let (which, path) = choose|which: int, path: Seq<int>|
                0 <= which < rest.len() && #[trigger] path_meets_range(
                    data,
                    be,
                    chrom_id,
                    start,
                    end,
                    rest[which],
                    path,
                ) && block_on_path(data, be, rest[which], path) == tail[j - hits.len()];
            assert(pending[which] == rest[which]);
            assert(path_meets_range(data, be, chrom_id, start, end, pending[which], path));
        }
    } else {
        let entries = inner_entries(node.body, be, node.count);
        let hit = inner_hit(chrom_id, start, end);
        let kept = entries.filter(hit);
        let kids = hit_children(entries, chrom_id, start, end);
        let next = rest + kids;
        lemma_walk_gives_blocks_on_paths_only(
            data,
            tree,
            chrom_id,
            start,
            end,
            next,
            (fuel - 1) as nat,
            blocks,
            j,
        );
        let (which, path) = choose|which: int, path: Seq<int>|
            0 <= which < next.len() && #[trigger] path_meets_range(
                data,
                be,
                chrom_id,
                start,
                end,
                next[which],
                path,
            ) && block_on_path(data, be, next[which], path) == blocks[j];
        if which < rest.len() {
            assert(pending[which] == next[which]);
            assert(path_meets_range(data, be, chrom_id, start, end, pending[which], path));
        } else {
            let k = which - rest.len();
            assert(next[which] == kids[k]);
            entries.lemma_filter_pred(hit, k);
            assert(kept.contains(kept[k]));
            entries.lemma_filter_contains_rev(hit, kept[k]);
            let i = choose|i: int| 0 <= i < entries.len() && entries[i] == kept[k];
            assert(entries[i] == inner_entry(node.body, be, i));
            let longer = seq![i] + path;
            assert(longer.drop_first() =~= path);
            assert(longer[0] == i);
            assert(path_meets_range(data, be, chrom_id, start, end, pending[top], longer));
            assert(block_on_path(data, be, pending[top], longer) == blocks[j]);
        }
    }
}

/// A path that meets a range meets every range that holds it.
pub proof fn lemma_path_meets_wider_range(
    data: Seq<u8>,
    big_endian: bool,
    chrom_id: u32,
    start: u32,
    end: u32,
    wider_start: u32,
    wider_end: u32,
    at: u64,
    path: Seq<int>,
)
    requires
        wider_start <= start,
        end <= wider_end,
        path_meets_range(data, big_endian, chrom_id, start, end, at, path),
    ensures
        path_meets_range(data, big_endian, chrom_id, wider_start, wider_end, at, path),
    decreases path.len(),
{
    if path.len() > 1 {
        let node = node_at(data, at as int, 32, 24, big_endian)->Ok_0;
        lemma_path_meets_wider_range(
            data,
            big_endian,
            chrom_id,
            start,
            end,
            wider_start,
            wider_end,
            inner_entry(node.body, big_endian, path[0]).child,
            path.drop_first(),
        );
    }
}

/// Narrowing the range loses blocks and gains none: where both answers are
/// lists of blocks, every block for a range is among the blocks for a range
/// on the same chromosome that holds it.
pub proof fn law_narrower_range_gives_a_subset(
    data: Seq<u8>,
    tree: CIRTreeFile,
    chrom_id: u32,
    start: u32,
    end: u32,
    wider_start: u32,
    wider_end: u32,
    narrow: Seq<FileOffsetSize>,
    wide: Seq<FileOffsetSize>,
)
    requires
        wider_start <= start,
        end <= wider_end,
        blocks_for(data, tree, chrom_id, start, end) == Ok::<Seq<FileOffsetSize>, ErrorView>(
            narrow,
        ),
        blocks_for(data, tree, chrom_id, wider_start, wider_end) == Ok::<
            Seq<FileOffsetSize>,
            ErrorView,
        >(wide),
    ensures
        forall|j: int| 0 <= j < narrow.len() ==> wide.contains(#[trigger] narrow[j]),
{
    let be = tree.big_endian;
    let roots = seq![tree.root_offset];
    assert forall|j: int| 0 <= j < narrow.len() implies wide.contains(#[trigger] narrow[j]) by {
        lemma_walk_gives_blocks_on_paths_only(
            data,
            tree,
            chrom_id,
            start,
            end,
            roots,
            data.len(),
            narrow,
            j,
        );
        let (which, path) = choose|which: int, path: Seq<int>|
            0 <= which < roots.len() && #[trigger] path_meets_range(
                data,
                be,
                chrom_id,
                start,
                end,
                roots[which],
                path,
            ) && block_on_path(data, be, roots[which], path) == narrow[j];
        lemma_path_meets_wider_range(
            data,
            be,
            chrom_id,
            start,
            end,
            wider_start,
            wider_end,
            tree.root_offset,
            path,
        );
        law_index_misses_no_block(data, tree, chrom_id, wider_start, wider_end, path, wide);
    }
}

/// The spatial index gives nothing that it need not give: every block of
/// an answer lies at the end of a path from the root that meets the range all
/// the way.
pub proof fn law_index_gives_blocks_on_paths_only(
    data: Seq<u8>,
    tree: CIRTreeFile,
    chrom_id: u32,
    start: u32,
    end: u32,
    blocks: Seq<FileOffsetSize>,
    j: int,
)
    requires
        blocks_for(data, tree, chrom_id, start, end) == Ok::<Seq<FileOffsetSize>, ErrorView>(
            blocks,
        ),
        0 <= j < blocks.len(),
    ensures
        on_a_path_from(
            data,
            tree.big_endian,
            chrom_id,
            start,
            end,
            seq![tree.root_offset],
            blocks[j],
        ),
{
    lemma_walk_gives_blocks_on_paths_only(
        data,
        tree,
        chrom_id,
        start,
        end,
        seq![tree.root_offset],
        data.len(),
        blocks,
        j,
    );
}

} // verus!
