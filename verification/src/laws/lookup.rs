//! Laws of looking a chromosome up by its name.

use vstd::prelude::*;
use vstd::utf8::{decode_utf8, encode_utf8, is_ascii_chars};
use vstd::utf8::{encode_utf8_decode_utf8, is_ascii_chars_encode_utf8};
use crate::bptree::{descend, entry_width, key_in, leaf_search, lookup, pick_child, BPlusTreeFile, ChromView};
use crate::error::ErrorView;
use crate::keys::{padded_key, zeros};
use crate::node::node_at;

verus! {

/// `count` zero characters.
pub open spec fn zero_chars(count: int) -> Seq<char> {
    Seq::new(count as nat, |i: int| '\0')
}

/// The bytes of two texts put together are the bytes of the first followed
/// by the bytes of the second.
pub proof fn lemma_encode_concat(a: Seq<char>, b: Seq<char>)
    ensures
        encode_utf8(a + b) == encode_utf8(a) + encode_utf8(b),
    decreases a.len(),
{
    if a.len() == 0 {
        assert(a + b =~= b);
        assert(encode_utf8(a) + encode_utf8(b) =~= encode_utf8(b));
    } else {
        lemma_encode_concat(a.drop_first(), b);
        assert((a + b).drop_first() =~= a.drop_first() + b);
        assert((a + b)[0] == a[0]);
        assert(encode_utf8(a + b) =~= encode_utf8(a) + encode_utf8(b));
    }
}

/// Zero characters are stored as zero bytes, one for one.
pub proof fn lemma_encode_zero_chars(count: int)
    requires
        count >= 0,
    ensures
        encode_utf8(zero_chars(count)) == zeros(count),
{
    let chars = zero_chars(count);
    assert(is_ascii_chars(chars));
    is_ascii_chars_encode_utf8(chars);
    let bytes = encode_utf8(chars);
    assert forall|i: int| 0 <= i < count implies bytes[i] == 0u8 by {
        assert(chars[i] == '\0');
        assert(chars[i] as u8 == bytes[i]);
    }
    assert(bytes =~= zeros(count));
}

/// The key that a name is looked up under is the name with zero characters
/// behind it, as bytes.
pub proof fn lemma_padded_key_is_padded_name(name: Seq<char>, width: int)
    requires
        encode_utf8(name).len() <= width,
    ensures
        padded_key(encode_utf8(name), width) == encode_utf8(
            name + zero_chars(width - encode_utf8(name).len()),
        ),
{
    let pad = width - encode_utf8(name).len();
    lemma_encode_concat(name, zero_chars(pad));
    lemma_encode_zero_chars(pad);
}

/// The entry that a search of a leaf finds has the key that was looked for.
pub proof fn lemma_leaf_search_finds_the_key(
    body: Seq<u8>,
    tree: BPlusTreeFile,
    count: int,
    key: Seq<u8>,
    from: int,
)
    requires
        0 <= from,
    ensures
        match leaf_search(body, tree, count, key, from) {
            Some(i) => from <= i < count && key_in(body, tree, i) == key && forall|j: int|
                from <= j < i ==> key_in(body, tree, j) != key,
            None => forall|j: int| from <= j < count ==> key_in(body, tree, j) != key,
        },
    decreases count - from,
{
    if from < count && key_in(body, tree, from) != key {
        lemma_leaf_search_finds_the_key(body, tree, count, key, from + 1);
    }
}

/// The entry that a descent finds has the key that was looked for.
pub proof fn lemma_descend_finds_the_key(
    data: Seq<u8>,
    tree: BPlusTreeFile,
    key: Seq<u8>,
    at: u64,
    fuel: nat,
)
    ensures
        descend(data, tree, key, at, fuel) matches Ok(Some(found)) ==> found.name == decode_utf8(
            key,
        ),
    decreases fuel,
{
    if fuel > 0 {
        match node_at(data, at as int, entry_width(tree), entry_width(tree), tree.big_endian) {
            Err(_) => {},
            Ok(node) => {
                if node.is_leaf {
                    lemma_leaf_search_finds_the_key(node.body, tree, node.count, key, 0);
                } else {
                    match pick_child(node.body, tree, node.count, key, 1) {
                        Some(child) => {
                            lemma_descend_finds_the_key(data, tree, key, child, (fuel - 1) as nat);
                        },
                        None => {},
                    }
                }
            },
        }
    }
}

/// A lookup is exact: the chromosome that it finds is stored under the name
/// that was asked for, padded with zero characters to the width of the keys,
/// and under no other.
pub proof fn law_lookup_is_exact(
    data: Seq<u8>,
    tree: BPlusTreeFile,
    name: Seq<char>,
    found: ChromView,
)
    requires
        lookup(data, tree, name) == Ok::<Option<ChromView>, ErrorView>(Some(found)),
    ensures
        found.name == name + zero_chars(tree.key_size - encode_utf8(name).len()),
{
    let key = padded_key(encode_utf8(name), tree.key_size as int);
    lemma_descend_finds_the_key(data, tree, key, tree.root_offset, data.len());
    lemma_padded_key_is_padded_name(name, tree.key_size as int);
    encode_utf8_decode_utf8(name + zero_chars(tree.key_size - encode_utf8(name).len()));
}

/// Two names that find the same stored name are the same up to the zero
/// characters that pad them: no lookup answers with a near miss.
pub proof fn law_lookup_tells_names_apart(
    data: Seq<u8>,
    tree: BPlusTreeFile,
    name: Seq<char>,
    other: Seq<char>,
    found: ChromView,
    other_found: ChromView,
)
    requires
        lookup(data, tree, name) == Ok::<Option<ChromView>, ErrorView>(Some(found)),
        lookup(data, tree, other) == Ok::<Option<ChromView>, ErrorView>(Some(other_found)),
        found.name == other_found.name,
    ensures
        name + zero_chars(tree.key_size - encode_utf8(name).len()) == other + zero_chars(
            tree.key_size - encode_utf8(other).len(),
        ),
{
    law_lookup_is_exact(data, tree, name, found);
    law_lookup_is_exact(data, tree, other, other_found);
}

/// A name gives the same answer with and without the zero characters that
/// pad it to the width of the keys.
pub proof fn law_lookup_ignores_padding(
    data: Seq<u8>,
    tree: BPlusTreeFile,
    name: Seq<char>,
    pad: nat,
)
    requires
        encode_utf8(name).len() + pad == tree.key_size,
    ensures
        lookup(data, tree, name + zero_chars(pad as int)) == lookup(data, tree, name),
{
    let padded = name + zero_chars(pad as int);
    lemma_padded_key_is_padded_name(name, tree.key_size as int);
    assert(encode_utf8(padded).len() == tree.key_size);
    assert(padded_key(encode_utf8(padded), tree.key_size as int) =~= encode_utf8(padded));
}

/// A name longer than the keys is refused whatever the tree holds.
pub proof fn law_long_name_is_bad_key(data: Seq<u8>, tree: BPlusTreeFile, name: Seq<char>)
    requires
        encode_utf8(name).len() > tree.key_size,
    ensures
        lookup(data, tree, name) == Err::<Option<ChromView>, ErrorView>(
            ErrorView::BadKey(name, tree.key_size as usize),
        ),
{
}

} // verus!
