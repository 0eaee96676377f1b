//! Laws of listing the chromosomes: the list is the tree, leaf by leaf.

use vstd::prelude::*;
use crate::bptree::{all_chroms, children, entry_width, leaf_chroms, names_valid, walk_chroms, BPlusTreeFile, ChromView};
use crate::error::ErrorView;
use crate::node::{node_at, NodeView};

verus! {

/// What lies below a block of the chromosome tree: the chromosomes of its
/// leaves, and how many blocks there are.
pub struct Survey {
    pub chroms: Seq<ChromView>,
    pub blocks: nat,
}

/// Two surveys put together, or `None` where one of them is missing.
pub open spec fn join_surveys(first: Option<Survey>, second: Option<Survey>) -> Option<Survey> {
    match (first, second) {
        (Some(a), Some(b)) => Some(
            Survey { chroms: a.chroms + b.chroms, blocks: a.blocks + b.blocks },
        ),
        _ => None,
    }
}

/// The survey of the block at `at` and of what lies below it, going at most
/// `depth` blocks deep: a leaf has its entries; an inner block has what its
/// children have, the last child's first. `None` where a block is cut short,
/// a name is not UTF-8, or the blocks go deeper than `depth`.
pub open spec fn tree_survey(data: Seq<u8>, tree: BPlusTreeFile, at: u64, depth: nat) -> Option<
    Survey,
>
    decreases depth, 0nat,
{
    if depth == 0 {
        None
    } else {
        match node_at(data, at as int, entry_width(tree), entry_width(tree), tree.big_endian) {
            Err(_) => None,
            Ok(node) => if node.is_leaf {
                if names_valid(node.body, tree, node.count) {
                    Some(
                        Survey { chroms: leaf_chroms(node.body, tree, node.count), blocks: 1 },
                    )
                } else {
                    None
                }
            } else {
                join_surveys(
                    Some(Survey { chroms: Seq::empty(), blocks: 1 }),
                    forest_survey(
                        data,
                        tree,
                        children(node.body, tree, node.count),
                        (depth - 1) as nat,
                    ),
                )
            },
        }
    }
}

/// The survey of several blocks, the last one's first.
pub open spec fn forest_survey(data: Seq<u8>, tree: BPlusTreeFile, nodes: Seq<u64>, depth: nat)
    -> Option<Survey>
    decreases depth, nodes.len() + 1,
{
    if nodes.len() == 0 {
        Some(Survey { chroms: Seq::empty(), blocks: 0 })
    } else {
        join_surveys(
            tree_survey(data, tree, nodes.last(), depth),
            forest_survey(data, tree, nodes.drop_last(), depth),
        )
    }
}

/// A survey that succeeds within a depth is the same within a greater one.
pub proof fn lemma_tree_survey_deeper(data: Seq<u8>, tree: BPlusTreeFile, at: u64, depth: nat)
    requires
        tree_survey(data, tree, at, depth) is Some,
    ensures
        tree_survey(data, tree, at, depth + 1) == tree_survey(data, tree, at, depth),
    decreases depth, 0nat,
{
    let node = node_at(data, at as int, entry_width(tree), entry_width(tree), tree.big_endian)->Ok_0;
    if !node.is_leaf {
        lemma_forest_survey_deeper(
            data,
            tree,
            children(node.body, tree, node.count),
            (depth - 1) as nat,
        );
    }
}

/// A survey of several blocks that succeeds within a depth is the same
/// within a greater one.
pub proof fn lemma_forest_survey_deeper(
    data: Seq<u8>,
    tree: BPlusTreeFile,
    nodes: Seq<u64>,
    depth: nat,
)
    requires
        forest_survey(data, tree, nodes, depth) is Some,
    ensures
        forest_survey(data, tree, nodes, depth + 1) == forest_survey(data, tree, nodes, depth),
    decreases depth, nodes.len() + 1,
{
    if nodes.len() > 0 {
        lemma_tree_survey_deeper(data, tree, nodes.last(), depth);
        lemma_forest_survey_deeper(data, tree, nodes.drop_last(), depth);
    }
}

/// The survey of two lists of blocks put together is the survey of the
/// second followed by the survey of the first.
pub proof fn lemma_forest_survey_concat(
    data: Seq<u8>,
    tree: BPlusTreeFile,
    first: Seq<u64>,
    second: Seq<u64>,
    depth: nat,
)
    ensures
        forest_survey(data, tree, first + second, depth) == join_surveys(
            forest_survey(data, tree, second, depth),
            forest_survey(data, tree, first, depth),
        ),
    decreases second.len(),
{
    if second.len() == 0 {
        assert(first + second =~= first);
        match forest_survey(data, tree, first, depth) {
            Some(a) => {
                assert(Seq::<ChromView>::empty() + a.chroms =~= a.chroms);
            },
            None => {},
        }
    } else {
        let all = first + second;
        assert(all.last() == second.last());
        assert(all.drop_last() =~= first + second.drop_last());
        lemma_forest_survey_concat(data, tree, first, second.drop_last(), depth);
        match (
            tree_survey(data, tree, second.last(), depth),
            forest_survey(data, tree, second.drop_last(), depth),
            forest_survey(data, tree, first, depth),
        ) {
            (Some(a), Some(b), Some(c)) => {
                assert(a.chroms + (b.chroms + c.chroms) =~= (a.chroms + b.chroms) + c.chroms);
            },
            _ => {},
        }
    }
}

/// A walk with fuel for every block gives what the survey of its list
/// gives.
pub proof fn lemma_walk_follows_the_survey(
    data: Seq<u8>,
    tree: BPlusTreeFile,
    pending: Seq<u64>,
    depth: nat,
    fuel: nat,
    survey: Survey,
)
    requires
        forest_survey(data, tree, pending, depth) == Some(survey),
        survey.blocks <= fuel,
    ensures
        walk_chroms(data, tree, pending, fuel) == Ok::<Seq<ChromView>, ErrorView>(survey.chroms),
    decreases fuel,
{
    if pending.len() > 0 {
        let rest = pending.drop_last();
        let top = tree_survey(data, tree, pending.last(), depth)->Some_0;
        let below = forest_survey(data, tree, rest, depth)->Some_0;
        let node = node_at(
            data,
            pending.last() as int,
            entry_width(tree),
            entry_width(tree),
            tree.big_endian,
        )->Ok_0;
        if node.is_leaf {
            lemma_walk_follows_the_survey(data, tree, rest, depth, (fuel - 1) as nat, below);
        } else {
            let kids = children(node.body, tree, node.count);
            let under = forest_survey(data, tree, kids, (depth - 1) as nat)->Some_0;
            lemma_forest_survey_deeper(data, tree, kids, (depth - 1) as nat);
            lemma_forest_survey_concat(data, tree, rest, kids, depth);
            assert(Seq::<ChromView>::empty() + under.chroms =~= under.chroms);
            let next = Survey {
                chroms: under.chroms + below.chroms,
                blocks: under.blocks + below.blocks,
            };
            lemma_walk_follows_the_survey(data, tree, rest + kids, depth, (fuel - 1) as nat, next);
        }
    }
}

/// Listing the chromosomes gives every chromosome once: where the blocks
/// below the root form a tree with whole blocks and names in UTF-8, and the
/// file has at least as many bytes as the tree has blocks, the list holds
/// the entries of every leaf, each leaf's once and in their order, the
/// leaves of a later child first.
pub proof fn law_chrom_list_is_the_survey_of_the_tree(
    data: Seq<u8>,
    tree: BPlusTreeFile,
    depth: nat,
    survey: Survey,
)
    requires
        tree.val_size == 8,
        tree_survey(data, tree, tree.root_offset, depth) == Some(survey),
        survey.blocks <= data.len(),
    ensures
        all_chroms(data, tree) == Ok::<Seq<ChromView>, ErrorView>(survey.chroms),
{
    let pending = seq![tree.root_offset];
    assert(pending.drop_last() =~= Seq::<u64>::empty());
    assert(forest_survey(data, tree, pending.drop_last(), depth) == Some(
        Survey { chroms: Seq::empty(), blocks: 0 },
    ));
    assert(survey.chroms + Seq::<ChromView>::empty() =~= survey.chroms);
    lemma_walk_follows_the_survey(data, tree, pending, depth, data.len(), survey);
}

/// The tree of a file with one leaf, the usual case: the list is the
/// entries of that leaf in their order.
pub proof fn law_single_leaf_is_listed_in_order(data: Seq<u8>, tree: BPlusTreeFile, root: NodeView)
    requires
        tree.val_size == 8,
        node_at(
            data,
            tree.root_offset as int,
            entry_width(tree),
            entry_width(tree),
            tree.big_endian,
        ) == Ok::<NodeView, ErrorView>(root),
        root.is_leaf,
        names_valid(root.body, tree, root.count),
    ensures
        all_chroms(data, tree) == Ok::<Seq<ChromView>, ErrorView>(
            leaf_chroms(root.body, tree, root.count),
        ),
{
    assert(data.len() >= 4);
    law_chrom_list_is_the_survey_of_the_tree(
        data,
        tree,
        1,
        Survey { chroms: leaf_chroms(root.body, tree, root.count), blocks: 1 },
    );
}

} // verus!
