//! Which blocks are DAG-CBOR, and that all of them can be read.

use crate::cbor::{
    argument, argument_len, bytes_left, completes, item, link_is_next, link_items, links_from,
    nesting_from, shallow, step, walkable, MAX_NESTING, PAIRS_UNTIL_BREAK, UNTIL_BREAK,
    VALUE_OF_PAIR,
};
use crate::cid::{Cid, CidParts, CODEC_DAG_CBOR, CODEC_DAG_JSON, CODEC_DAG_PB, CODEC_RAW};
use crate::ipld::{
    append_links, are_cids_of, joined_links, parsed_links, plain_links, plain_parts, references,
    ReferencesError,
};
use vstd::prelude::*;

verus! {

/// An item of CBOR, with all that is left open in how it is written: in how many bytes a number or a
/// length is given, and whether the end of a collection is announced or marked.
pub enum Node {
    /// An integer.
    Number { negative: bool, width: nat, value: nat },
    /// A string of bytes or of text.
    Chars { text: bool, width: nat, content: Seq<u8> },
    /// A list whose length is announced.
    List { width: nat, items: Seq<Node> },
    /// A list whose end is marked.
    OpenList { items: Seq<Node> },
    /// A map whose length is announced, with its keys and values by turns.
    Pairs { width: nat, entries: Seq<Node> },
    /// A map whose end is marked, with its keys and values by turns.
    OpenPairs { entries: Seq<Node> },
    /// A link.
    Link { content: Seq<u8> },
    /// An item with a tag that does not stand for a link.
    Tagged { tag: u8, item: Box<Node> },
    /// False, true, null, undefined, another simple value or a floating-point number.
    Simple { low: u8, content: Seq<u8> },
}

/// A number in a number of bytes, big-endian.
pub open spec fn big_endian(value: nat, width: nat) -> Seq<u8>
    decreases width,
{
    if width == 0 {
        Seq::empty()
    } else {
        big_endian(value / 256, (width - 1) as nat).push((value % 256) as u8)
    }
}

/// Whether a number can be given in a number of bytes after the first byte. Small numbers stand in
/// the first byte itself.
pub open spec fn fits(value: nat, width: nat) -> bool {
    ||| width == 0 && value < 24
    ||| width == 1 && value < 0x100
    ||| width == 2 && value < 0x1_0000
    ||| width == 4 && value < 0x1_0000_0000
    ||| width == 8 && value < 0x1_0000_0000_0000_0000
}

/// The start of an item of some kind with a number.
pub open spec fn head(kind: nat, value: nat, width: nat) -> Seq<u8> {
    let low = if width == 0 {
        value
    } else if width == 1 {
        24
    } else if width == 2 {
        25
    } else if width == 4 {
        26
    } else {
        27
    };
    seq![(kind * 32 + low) as u8] + big_endian(value, width)
}

/// The bytes of an item.
pub open spec fn encode(node: Node) -> Seq<u8>
    decreases node,
{
    match node {
        Node::Number { negative, width, value } => head(
            if negative {
                1
            } else {
                0
            },
            value,
            width,
        ),
        Node::Chars { text, width, content } => head(
            if text {
                3
            } else {
                2
            },
            content.len(),
            width,
        ) + content,
        Node::List { width, items } => head(4, items.len(), width) + encode_all(items),
        Node::OpenList { items } => seq![0x9fu8] + encode_all(items) + seq![0xffu8],
        Node::Pairs { width, entries } => head(5, entries.len() / 2, width) + encode_all(entries),
        Node::OpenPairs { entries } => seq![0xbfu8] + encode_all(entries) + seq![0xffu8],
        Node::Link { content } => seq![0xd8u8, 42u8, 0x58u8, content.len() as u8] + content,
        Node::Tagged { tag, item } => seq![0xd8u8, tag] + encode(*item),
        Node::Simple { low, content } => seq![(0xe0 + low) as u8] + content,
    }
}

/// The bytes of several items.
pub open spec fn encode_all(nodes: Seq<Node>) -> Seq<u8>
    decreases nodes,
{
    if nodes.len() == 0 {
        Seq::empty()
    } else {
        encode_all(nodes.drop_last()) + encode(nodes.last())
    }
}

/// Whether an item can be written: numbers fit, and every key has a value.
pub open spec fn well_formed(node: Node) -> bool
    decreases node,
{
    match node {
        Node::Number { negative, width, value } => fits(value, width),
        Node::Chars { text, width, content } => fits(content.len(), width),
        Node::List { width, items } => fits(items.len(), width) && all_well_formed(items),
        Node::OpenList { items } => all_well_formed(items),
        Node::Pairs { width, entries } => entries.len() % 2 == 0 && fits(entries.len() / 2, width)
            && all_well_formed(entries),
        Node::OpenPairs { entries } => entries.len() % 2 == 0 && all_well_formed(entries),
        Node::Link { content } => 0 < content.len() < 256,
        Node::Tagged { tag, item } => tag != 42 && well_formed(*item),
        Node::Simple { low, content } => {
            ||| 20 <= low <= 23 && content.len() == 0
            ||| low == 24 && content.len() == 1
            ||| low == 25 && content.len() == 2
            ||| low == 26 && content.len() == 4
            ||| low == 27 && content.len() == 8
        },
    }
}

/// Whether several items can be written.
pub open spec fn all_well_formed(nodes: Seq<Node>) -> bool
    decreases nodes,
{
    nodes.len() == 0 || (all_well_formed(nodes.drop_last()) && well_formed(nodes.last()))
}

/// The links in an item, in the order in which they stand in it, each of them as its bytes.
pub open spec fn links_of_node(node: Node) -> Seq<Seq<u8>>
    decreases node,
{
    match node {
        Node::List { width, items } => links_of_all(items),
        Node::OpenList { items } => links_of_all(items),
        Node::Pairs { width, entries } => links_of_all(entries),
        Node::OpenPairs { entries } => links_of_all(entries),
        Node::Link { content } => seq![encode(node)],
        Node::Tagged { tag, item } => links_of_node(*item),
        _ => Seq::empty(),
    }
}

/// The links in several items.
pub open spec fn links_of_all(nodes: Seq<Node>) -> Seq<Seq<u8>>
    decreases nodes,
{
    if nodes.len() == 0 {
        Seq::empty()
    } else {
        links_of_all(nodes.drop_last()) + links_of_node(nodes.last())
    }
}

/// How many items lie within each other at most.
pub open spec fn height(node: Node) -> nat
    decreases node,
{
    match node {
        Node::List { width, items } => 1 + height_of_all(items),
        Node::OpenList { items } => 1 + height_of_all(items),
        Node::Pairs { width, entries } => 1 + height_of_all(entries),
        Node::OpenPairs { entries } => 1 + height_of_all(entries),
        Node::Tagged { tag, item } => 1 + height(*item),
        _ => 1,
    }
}

/// The height of the highest of several items.
pub open spec fn height_of_all(nodes: Seq<Node>) -> nat
    decreases nodes,
{
    if nodes.len() == 0 {
        0
    } else {
        let before = height_of_all(nodes.drop_last());
        let last = height(nodes.last());
        if before > last {
            before
        } else {
            last
        }
    }
}

/// Whether a block has the given bytes at a position.
spec fn has_at(block: Seq<u8>, pos: int, bytes: Seq<u8>) -> bool {
    &&& 0 <= pos
    &&& pos + bytes.len() <= block.len()
    &&& forall|i: int| 0 <= i < bytes.len() ==> block[pos + i] == #[trigger] bytes[i]
}

proof fn lemma_has_parts(block: Seq<u8>, pos: int, a: Seq<u8>, b: Seq<u8>)
    requires
        has_at(block, pos, a + b),
    ensures
        has_at(block, pos, a),
        has_at(block, pos + a.len(), b),
{
    assert forall|i: int| 0 <= i < a.len() implies block[pos + i] == #[trigger] a[i] by {
        assert((a + b)[i] == a[i]);
    }
    assert forall|i: int| 0 <= i < b.len() implies block[pos + a.len() + i] == #[trigger] b[i] by {
        assert((a + b)[a.len() + i] == b[i]);
    }
}

proof fn lemma_big_endian_len(value: nat, width: nat)
    ensures
        big_endian(value, width).len() == width,
    decreases width,
{
    if width > 0 {
        lemma_big_endian_len(value / 256, (width - 1) as nat);
    }
}

/// What is read at the start of an item is what was written there.
proof fn lemma_head(block: Seq<u8>, pos: int, kind: nat, value: nat, width: nat)
    requires
        kind < 8,
        fits(value, width),
        has_at(block, pos, head(kind, value, width)),
    ensures
        head(kind, value, width).len() == 1 + width,
        block[pos] / 32 == kind,
        width == 0 ==> block[pos] % 32 == value,
        width == 1 ==> block[pos] % 32 == 24,
        width == 2 ==> block[pos] % 32 == 25,
        width == 4 ==> block[pos] % 32 == 26,
        width == 8 ==> block[pos] % 32 == 27,
        argument_len(block[pos]) == width,
        argument(block, pos) == value,
{
    let bytes = head(kind, value, width);
    lemma_big_endian_len(value, width);
    assert(block[pos + 0] == bytes[0]);
    if width == 1 {
        reveal_with_fuel(big_endian, 2);
        assert(block[pos + 1] == bytes[1]);
    } else if width == 2 {
        reveal_with_fuel(big_endian, 3);
        assert(block[pos + 1] == bytes[1] && block[pos + 2] == bytes[2]);
    } else if width == 4 {
        reveal_with_fuel(big_endian, 5);
        assert(block[pos + 1] == bytes[1] && block[pos + 2] == bytes[2]);
        assert(block[pos + 3] == bytes[3] && block[pos + 4] == bytes[4]);
    } else if width == 8 {
        reveal_with_fuel(big_endian, 9);
        assert(block[pos + 1] == bytes[1] && block[pos + 2] == bytes[2]);
        assert(block[pos + 3] == bytes[3] && block[pos + 4] == bytes[4]);
        assert(block[pos + 5] == bytes[5] && block[pos + 6] == bytes[6]);
        assert(block[pos + 7] == bytes[7] && block[pos + 8] == bytes[8]);
    }
}

/// What is left of an open collection once one of its items was passed.
spec fn passed(mark: int) -> int {
    if mark > 0 {
        mark - 1
    } else if mark == PAIRS_UNTIL_BREAK {
        VALUE_OF_PAIR as int
    } else if mark == VALUE_OF_PAIR {
        PAIRS_UNTIL_BREAK as int
    } else {
        mark
    }
}

/// What is left of an open collection once some of its items were passed.
spec fn all_passed(mark: int, n: nat) -> int
    decreases n,
{
    if n == 0 {
        mark
    } else {
        passed(all_passed(mark, (n - 1) as nat))
    }
}

proof fn lemma_all_passed(mark: int, n: nat)
    ensures
        mark >= n ==> all_passed(mark, n) == mark - n,
        mark == UNTIL_BREAK ==> all_passed(mark, n) == UNTIL_BREAK,
        mark == PAIRS_UNTIL_BREAK ==> all_passed(mark, n) == (if n % 2 == 0 {
            PAIRS_UNTIL_BREAK as int
        } else {
            VALUE_OF_PAIR as int
        }),
    decreases n,
{
    if n > 0 {
        lemma_all_passed(mark, (n - 1) as nat);
    }
}

/// Whether a collection has room for more items.
spec fn is_open(mark: int) -> bool {
    mark > 0 || mark == UNTIL_BREAK || mark == PAIRS_UNTIL_BREAK || mark == VALUE_OF_PAIR
}

spec fn larger(a: nat, b: nat) -> nat {
    if a > b {
        a
    } else {
        b
    }
}

/// Whether the walk through a block comes from one place to another, and passes these links and this
/// many items within each other.
spec fn comes_to(
    block: Seq<u8>,
    pos: int,
    open: Seq<int>,
    end: int,
    left: Seq<int>,
    links: Seq<Seq<u8>>,
    deep: nat,
) -> bool {
    &&& completes(block, pos, open) == completes(block, end, left)
    &&& links_from(block, pos, open) == links + links_from(block, end, left)
    &&& nesting_from(block, pos, open) == larger(deep, nesting_from(block, end, left))
}

proof fn lemma_nesting_is_not_less(block: Seq<u8>, pos: int, open: Seq<int>)
    ensures
        nesting_from(block, pos, open) >= open.len(),
    decreases bytes_left(block, pos), open.len(),
{
}

/// The walk goes on past a collection that lacks nothing.
proof fn lemma_pops(block: Seq<u8>, pos: int, open: Seq<int>)
    ensures
        comes_to(block, pos, open.push(0), pos, open, Seq::empty(), open.len() + 1),
{
    let all = open.push(0);
    assert(all.drop_last() =~= open);
    assert(step(block, pos, all) == Some((pos, open)));
    assert(links_from(block, pos, all) =~= Seq::<Seq<u8>>::empty() + links_from(block, pos, open));
}

/// The walk goes on past an item without items in it.
proof fn lemma_atom(
    block: Seq<u8>,
    pos: int,
    base: Seq<int>,
    mark: int,
    end: int,
    links: Seq<Seq<u8>>,
)
    requires
        0 <= pos < block.len(),
        is_open(mark),
        block[pos] != 0xff,
        item(block, pos) == Some((end, 0int)),
        end > pos,
        links == (if block[pos] == 0xd8 && block[pos + 1] == 42 {
            seq![block.subrange(pos, end)]
        } else {
            Seq::empty()
        }),
    ensures
        comes_to(
            block,
            pos,
            base.push(mark),
            end,
            base.push(passed(mark)),
            links,
            base.len() + 2,
        ),
{
    let open = base.push(mark);
    let rest = base.push(passed(mark));
    assert(open.drop_last() =~= base);
    assert(open.drop_last().push(open.last()) =~= open);
    assert(step(block, pos, open) == Some((end, rest.push(0))));
    lemma_pops(block, end, rest);
    lemma_nesting_is_not_less(block, end, rest);
    let tail = links_from(block, end, rest);
    assert(Seq::<Seq<u8>>::empty() + tail =~= tail);
    assert(links_from(block, end, rest.push(0)) == tail);
    assert(link_is_next(block, pos, open) <==> block[pos] == 0xd8 && block[pos + 1] == 42);
    assert(links_from(block, pos, open) =~= links + tail);
}

/// The walk goes into a collection.
proof fn lemma_enters(block: Seq<u8>, pos: int, base: Seq<int>, mark: int, next: int, inner: int)
    requires
        0 <= pos < block.len(),
        is_open(mark),
        block[pos] != 0xff,
        item(block, pos) == Some((next, inner)),
        next > pos,
        !(block[pos] == 0xd8 && block[pos + 1] == 42),
    ensures
        comes_to(
            block,
            pos,
            base.push(mark),
            next,
            base.push(passed(mark)).push(inner),
            Seq::empty(),
            base.len() + 1,
        ),
{
    let open = base.push(mark);
    let rest = base.push(passed(mark));
    assert(open.drop_last() =~= base);
    assert(open.drop_last().push(open.last()) =~= open);
    assert(step(block, pos, open) == Some((next, rest.push(inner))));
    lemma_nesting_is_not_less(block, next, rest.push(inner));
    assert(links_from(block, pos, open) =~= Seq::<Seq<u8>>::empty() + links_from(
        block,
        next,
        rest.push(inner),
    ));
}

/// The walk goes on past the end of a collection that is marked.
proof fn lemma_breaks(block: Seq<u8>, pos: int, open: Seq<int>, mark: int)
    requires
        0 <= pos < block.len(),
        block[pos] == 0xff,
        mark == UNTIL_BREAK || mark == PAIRS_UNTIL_BREAK,
    ensures
        comes_to(block, pos, open.push(mark), pos + 1, open, Seq::empty(), open.len() + 1),
{
    let all = open.push(mark);
    assert(all.drop_last() =~= open);
    assert(step(block, pos, all) == Some((pos + 1, open)));
    assert(links_from(block, pos, all) =~= Seq::<Seq<u8>>::empty() + links_from(
        block,
        pos + 1,
        open,
    ));
}

proof fn lemma_then(
    block: Seq<u8>,
    a: int,
    open_a: Seq<int>,
    b: int,
    open_b: Seq<int>,
    c: int,
    open_c: Seq<int>,
    first: Seq<Seq<u8>>,
    second: Seq<Seq<u8>>,
    deep: nat,
    deeper: nat,
)
    requires
        comes_to(block, a, open_a, b, open_b, first, deep),
        comes_to(block, b, open_b, c, open_c, second, deeper),
    ensures
        comes_to(block, a, open_a, c, open_c, first + second, larger(deep, deeper)),
{
    assert(first + (second + links_from(block, c, open_c)) =~= (first + second) + links_from(
        block,
        c,
        open_c,
    ));
}

proof fn lemma_encodings_are_not_empty(node: Node)
    requires
        well_formed(node),
    ensures
        encode(node).len() > 0,
        encode(node)[0] != 0xff,
{
    match node {
        Node::Simple { low, content } => {
            assert(encode(node)[0] == (0xe0 + low) as u8);
        },
        Node::Number { negative, width, value } => {
            lemma_big_endian_len(value, width);
        },
        Node::Chars { text, width, content } => {
            lemma_big_endian_len(content.len(), width);
        },
        Node::List { width, items } => {
            lemma_big_endian_len(items.len(), width);
        },
        Node::Pairs { width, entries } => {
            lemma_big_endian_len(entries.len() / 2, width);
        },
        _ => {},
    }
}

proof fn lemma_items_take_up_bytes(nodes: Seq<Node>)
    requires
        all_well_formed(nodes),
    ensures
        encode_all(nodes).len() >= nodes.len(),
    decreases nodes,
{
    if nodes.len() > 0 {
        lemma_items_take_up_bytes(nodes.drop_last());
        lemma_encodings_are_not_empty(nodes.last());
    }
}

/// The walk goes on past an item.
proof fn lemma_follows(node: Node, block: Seq<u8>, pos: int, base: Seq<int>, mark: int)
    requires
        well_formed(node),
        has_at(block, pos, encode(node)),
        is_open(mark),
    ensures
        comes_to(
            block,
            pos,
            base.push(mark),
            pos + encode(node).len(),
            base.push(passed(mark)),
            links_of_node(node),
            base.len() + 1 + height(node),
        ),
    decreases node, 0nat,
{
    let bytes = encode(node);
    let end = pos + bytes.len();
    let open = base.push(mark);
    let rest = base.push(passed(mark));
    lemma_encodings_are_not_empty(node);
    assert(block[pos + 0] == bytes[0]);
    match node {
        Node::Number { negative, width, value } => {
            let kind: nat = if negative {
                1
            } else {
                0
            };
            lemma_head(block, pos, kind, value, width);
            lemma_atom(block, pos, base, mark, end, Seq::empty());
        },
        Node::Chars { text, width, content } => {
            let kind: nat = if text {
                3
            } else {
                2
            };
            let start = head(kind, content.len(), width);
            lemma_has_parts(block, pos, start, content);
            lemma_head(block, pos, kind, content.len(), width);
            lemma_atom(block, pos, base, mark, end, Seq::empty());
        },
        Node::Link { content } => {
            assert(bytes[1] == 42 && bytes[2] == 0x58 && bytes[3] == content.len());
            assert(block[pos + 1] == bytes[1] && block[pos + 2] == bytes[2]);
            assert(block[pos + 3] == bytes[3]);
            assert(block.subrange(pos, end) =~= bytes) by {
                assert forall|i: int| 0 <= i < bytes.len() implies block.subrange(pos, end)[i]
                    == bytes[i] by {
                    assert(block[pos + i] == bytes[i]);
                }
            }
            lemma_atom(block, pos, base, mark, end, seq![bytes]);
        },
        Node::Simple { low, content } => {
            lemma_atom(block, pos, base, mark, end, Seq::empty());
        },
        Node::Tagged { tag, item } => {
            let start = seq![0xd8u8, tag];
            lemma_has_parts(block, pos, start, encode(*item));
            assert(block[pos + 1] == start[1]);
            lemma_enters(block, pos, base, mark, pos + 2, 1);
            lemma_follows(*item, block, pos + 2, rest, 1);
            lemma_pops(block, end, rest);
            lemma_then(
                block,
                pos + 2,
                rest.push(1),
                end,
                rest.push(0),
                end,
                rest,
                links_of_node(*item),
                Seq::empty(),
                rest.len() + 1 + height(*item),
                rest.len() + 1,
            );
            lemma_then(
                block,
                pos,
                open,
                pos + 2,
                rest.push(1),
                end,
                rest,
                Seq::empty(),
                links_of_node(*item) + Seq::empty(),
                base.len() + 1,
                larger(rest.len() + 1 + height(*item), rest.len() + 1),
            );
            assert(Seq::<Seq<u8>>::empty() + (links_of_node(*item) + Seq::empty())
                =~= links_of_node(*item));
        },
        Node::List { width, items } => {
            let start = head(4, items.len(), width);
            lemma_has_parts(block, pos, start, encode_all(items));
            lemma_head(block, pos, 4, items.len(), width);
            lemma_items_take_up_bytes(items);
            lemma_all_passed(items.len() as int, items.len());
            lemma_enters(block, pos, base, mark, pos + start.len(), items.len() as int);
            lemma_counted(items, block, pos + start.len(), rest, items.len());
            lemma_then(
                block,
                pos,
                open,
                pos + start.len(),
                rest.push(items.len() as int),
                end,
                rest,
                Seq::empty(),
                links_of_all(items),
                base.len() + 1,
                rest.len() + 1 + height_of_all(items),
            );
            assert(Seq::<Seq<u8>>::empty() + links_of_all(items) =~= links_of_all(items));
        },
        Node::Pairs { width, entries } => {
            let start = head(5, entries.len() / 2, width);
            lemma_has_parts(block, pos, start, encode_all(entries));
            lemma_head(block, pos, 5, entries.len() / 2, width);
            lemma_items_take_up_bytes(entries);
            lemma_all_passed(entries.len() as int, entries.len());
            lemma_enters(block, pos, base, mark, pos + start.len(), entries.len() as int);
            lemma_counted(entries, block, pos + start.len(), rest, entries.len());
            lemma_then(
                block,
                pos,
                open,
                pos + start.len(),
                rest.push(entries.len() as int),
                end,
                rest,
                Seq::empty(),
                links_of_all(entries),
                base.len() + 1,
                rest.len() + 1 + height_of_all(entries),
            );
            assert(Seq::<Seq<u8>>::empty() + links_of_all(entries) =~= links_of_all(entries));
        },
        Node::OpenList { items } => {
            let start = seq![0x9fu8];
            lemma_has_parts(block, pos, start + encode_all(items), seq![0xffu8]);
            lemma_has_parts(block, pos, start, encode_all(items));
            assert(block[end - 1 + 0] == seq![0xffu8][0]);
            lemma_enters(block, pos, base, mark, pos + 1, UNTIL_BREAK as int);
            lemma_marked(items, block, pos + 1, rest, UNTIL_BREAK as int);
            lemma_then(
                block,
                pos,
                open,
                pos + 1,
                rest.push(UNTIL_BREAK as int),
                end,
                rest,
                Seq::empty(),
                links_of_all(items),
                base.len() + 1,
                rest.len() + 1 + height_of_all(items),
            );
            assert(Seq::<Seq<u8>>::empty() + links_of_all(items) =~= links_of_all(items));
        },
        Node::OpenPairs { entries } => {
            let start = seq![0xbfu8];
            lemma_has_parts(block, pos, start + encode_all(entries), seq![0xffu8]);
            lemma_has_parts(block, pos, start, encode_all(entries));
            assert(block[end - 1 + 0] == seq![0xffu8][0]);
            lemma_enters(block, pos, base, mark, pos + 1, PAIRS_UNTIL_BREAK as int);
            lemma_marked(entries, block, pos + 1, rest, PAIRS_UNTIL_BREAK as int);
            lemma_then(
                block,
                pos,
                open,
                pos + 1,
                rest.push(PAIRS_UNTIL_BREAK as int),
                end,
                rest,
                Seq::empty(),
                links_of_all(entries),
                base.len() + 1,
                rest.len() + 1 + height_of_all(entries),
            );
            assert(Seq::<Seq<u8>>::empty() + links_of_all(entries) =~= links_of_all(entries));
        },
    }
}

/// The walk goes on past several items.
proof fn lemma_follows_all(nodes: Seq<Node>, block: Seq<u8>, pos: int, base: Seq<int>, mark: int)
    requires
        all_well_formed(nodes),
        has_at(block, pos, encode_all(nodes)),
        mark >= nodes.len() || mark == UNTIL_BREAK || mark == PAIRS_UNTIL_BREAK,
    ensures
        comes_to(
            block,
            pos,
            base.push(mark),
            pos + encode_all(nodes).len(),
            base.push(all_passed(mark, nodes.len())),
            links_of_all(nodes),
            base.len() + 1 + height_of_all(nodes),
        ),
    decreases nodes, 0nat,
{
    lemma_all_passed(mark, nodes.len());
    if nodes.len() > 0 {
        let before = nodes.drop_last();
        let last = nodes.last();
        let middle = pos + encode_all(before).len();
        let left = all_passed(mark, before.len());
        lemma_all_passed(mark, before.len());
        lemma_has_parts(block, pos, encode_all(before), encode(last));
        lemma_follows_all(before, block, pos, base, mark);
        lemma_follows(last, block, middle, base, left);
        lemma_then(
            block,
            pos,
            base.push(mark),
            middle,
            base.push(left),
            pos + encode_all(nodes).len(),
            base.push(passed(left)),
            links_of_all(before),
            links_of_node(last),
            base.len() + 1 + height_of_all(before),
            base.len() + 1 + height(last),
        );
    } else {
        lemma_nesting_is_not_less(block, pos, base.push(mark));
        assert(Seq::<Seq<u8>>::empty() + links_from(block, pos, base.push(mark)) =~= links_from(
            block,
            pos,
            base.push(mark),
        ));
    }
}

proof fn lemma_counted(nodes: Seq<Node>, block: Seq<u8>, pos: int, rest: Seq<int>, n: nat)
    requires
        all_well_formed(nodes),
        has_at(block, pos, encode_all(nodes)),
        n == nodes.len(),
    ensures
        comes_to(
            block,
            pos,
            rest.push(n as int),
            pos + encode_all(nodes).len(),
            rest,
            links_of_all(nodes),
            rest.len() + 1 + height_of_all(nodes),
        ),
    decreases nodes, 1nat,
{
    let end = pos + encode_all(nodes).len();
    lemma_all_passed(n as int, n);
    lemma_follows_all(nodes, block, pos, rest, n as int);
    lemma_pops(block, end, rest);
    lemma_then(
        block,
        pos,
        rest.push(n as int),
        end,
        rest.push(0),
        end,
        rest,
        links_of_all(nodes),
        Seq::empty(),
        rest.len() + 1 + height_of_all(nodes),
        rest.len() + 1,
    );
    assert(links_of_all(nodes) + Seq::<Seq<u8>>::empty() =~= links_of_all(nodes));
}

proof fn lemma_marked(nodes: Seq<Node>, block: Seq<u8>, pos: int, rest: Seq<int>, mark: int)
    requires
        all_well_formed(nodes),
        has_at(block, pos, encode_all(nodes)),
        mark == UNTIL_BREAK || (mark == PAIRS_UNTIL_BREAK && nodes.len() % 2 == 0),
        pos + encode_all(nodes).len() < block.len(),
        block[pos + encode_all(nodes).len()] == 0xff,
    ensures
        comes_to(
            block,
            pos,
            rest.push(mark),
            pos + encode_all(nodes).len() + 1,
            rest,
            links_of_all(nodes),
            rest.len() + 1 + height_of_all(nodes),
        ),
    decreases nodes, 1nat,
{
    let end = pos + encode_all(nodes).len();
    lemma_all_passed(mark, nodes.len());
    lemma_follows_all(nodes, block, pos, rest, mark);
    lemma_breaks(block, end, rest, mark);
    lemma_then(
        block,
        pos,
        rest.push(mark),
        end,
        rest.push(mark),
        end + 1,
        rest,
        links_of_all(nodes),
        Seq::empty(),
        rest.len() + 1 + height_of_all(nodes),
        rest.len() + 1,
    );
    assert(links_of_all(nodes) + Seq::<Seq<u8>>::empty() =~= links_of_all(nodes));
}

/// Every item of CBOR can be followed to its end, whatever comes after it. Its links are found in
/// order, and it is followed by recursion unless it is too high.
pub proof fn items_can_be_followed(node: Node, rest: Seq<u8>)
    requires
        well_formed(node),
    ensures
        walkable(encode(node) + rest),
        link_items(encode(node) + rest) == links_of_node(node),
        shallow(encode(node) + rest) <==> height(node) <= MAX_NESTING,
{
    let block = encode(node) + rest;
    let end = encode(node).len() as int;
    let none = Seq::<int>::empty();
    assert(none.push(1) =~= seq![1int]);
    lemma_follows(node, block, 0, none, 1);
    lemma_pops(block, end, none);
    assert(none.push(passed(1)) == none.push(0));
    assert(links_from(block, end, none) =~= Seq::<Seq<u8>>::empty());
    assert(links_from(block, end, none.push(0)) =~= Seq::<Seq<u8>>::empty());
    assert(links_of_node(node) + Seq::<Seq<u8>>::empty() =~= links_of_node(node));
    assert(height(node) >= 1);
}

/// Whether some links are all valid.
pub open spec fn all_valid(links: Seq<CidParts>) -> bool {
    forall|i: int| 0 <= i < links.len() ==> (#[trigger] links[i]).valid()
}

/// Whether this is what comes of links that were read, or not.
pub open spec fn is_made_of(
    links: Option<Seq<CidParts>>,
    cid: Cid,
    refs: Seq<Cid>,
    r: Result<Vec<Cid>, ReferencesError>,
) -> bool {
    match links {
        Some(links) => if all_valid(links) {
            r matches Ok(all) && {
                &&& all@.take(refs.len() as int) == refs
                &&& are_cids_of(all@.skip(refs.len() as int), links)
            }
        } else {
            r matches Err(ReferencesError::Undecodable { cid: c }) && c == cid
        },
        None => r matches Err(ReferencesError::Undecodable { cid: c }) && c == cid,
    }
}

/// What the references of a DAG-CBOR block are, whatever comes after it: what the outside parser finds
/// in it, or in each of its links, if it is too high to be parsed by recursion. Nothing else is a
/// reason to refuse it.
pub proof fn dag_cbor_blocks_are_read(
    node: Node,
    rest: Seq<u8>,
    cid: Cid,
    block: &[u8],
    refs: Vec<Cid>,
    r: Result<Vec<Cid>, ReferencesError>,
)
    requires
        well_formed(node),
        block@ == encode(node) + rest,
        cid.parts().codec == CODEC_DAG_CBOR,
        call_ensures(references, (cid, block, refs), r),
    ensures
        is_made_of(
            if height(node) <= MAX_NESTING {
                parsed_links(CODEC_DAG_CBOR, block@)
            } else {
                joined_links(links_of_node(node))
            },
            cid,
            refs@,
            r,
        ),
{
    items_can_be_followed(node, rest);
    if r is Ok {
        assert(r->Ok_0@.take(refs@.len() as int) =~= refs@);
    }
}

/// What the references of a DAG-PB or DAG-JSON block are: what the outside parser finds in it.
pub proof fn other_blocks_are_read(
    cid: Cid,
    block: &[u8],
    refs: Vec<Cid>,
    r: Result<Vec<Cid>, ReferencesError>,
)
    requires
        cid.parts().codec == CODEC_DAG_PB || cid.parts().codec == CODEC_DAG_JSON,
        call_ensures(references, (cid, block, refs), r),
    ensures
        is_made_of(parsed_links(cid.parts().codec, block@), cid, refs@, r),
{
    if r is Ok {
        assert(r->Ok_0@.take(refs@.len() as int) =~= refs@);
    }
}

/// A DAG-CBOR block whose items cannot be followed to the end is refused.
pub proof fn broken_blocks_are_refused(
    cid: Cid,
    block: &[u8],
    refs: Vec<Cid>,
    r: Result<Vec<Cid>, ReferencesError>,
)
    requires
        cid.parts().codec == CODEC_DAG_CBOR,
        call_ensures(references, (cid, block, refs), r),
    ensures
        !walkable(block@) ==> (r matches Err(ReferencesError::Undecodable { cid: c }) && c == cid),
        block@.len() == 0 ==> r is Err,
{
    if block@.len() == 0 {
        assert(seq![1int].last() == 1);
        assert(step(block@, 0, seq![1int]) is None);
    }
}

/// A raw block has no references, and a block of any other codec cannot be read.
pub proof fn raw_and_unknown_blocks(
    cid: Cid,
    block: &[u8],
    refs: Vec<Cid>,
    r: Result<Vec<Cid>, ReferencesError>,
)
    requires
        call_ensures(references, (cid, block, refs), r),
    ensures
        ({
            let codec = cid.parts().codec;
            &&& codec == CODEC_RAW ==> (r matches Ok(all) && all@ == refs@)
            &&& codec != CODEC_RAW && codec != CODEC_DAG_PB && codec != CODEC_DAG_CBOR && codec
                != CODEC_DAG_JSON ==> (r matches Err(ReferencesError::UnsupportedCodec { cid: c })
                && c == cid)
        }),
{
}

/// Identifiers are appended as they come, one for each link, unless one of the links makes none.
pub proof fn links_are_appended(
    links: &[(u64, u64, u64, Vec<u8>)],
    refs: Vec<Cid>,
    r: Option<Vec<Cid>>,
)
    requires
        call_ensures(append_links, (links, refs), r),
    ensures
        r is Some <==> forall|i: int| 0 <= i < links@.len() ==> #[trigger] makes_a_cid(links@[i]),
        r matches Some(all) ==> {
            &&& all@.len() == refs@.len() + links@.len()
            &&& all@.take(refs@.len() as int) == refs@
            &&& forall|i: int|
                0 <= i < links@.len() ==> {
                    let parts = all@[refs@.len() + i].parts();
                    &&& parts.version == (#[trigger] links@[i]).0 && parts.codec == links@[i].1
                    &&& parts.hash_code == links@[i].2 && parts.digest == links@[i].3@
                }
        },
{
    match r {
        Some(all) => {
            let added = all@.skip(refs@.len() as int);
            assert(all@.take(refs@.len() as int) =~= refs@);
            assert forall|i: int| 0 <= i < links@.len() implies {
                let parts = all@[refs@.len() + i].parts();
                &&& parts.version == (#[trigger] links@[i]).0 && parts.codec == links@[i].1
                &&& parts.hash_code == links@[i].2 && parts.digest == links@[i].3@
            } by {
                assert(all@[refs@.len() + i] == added[i]);
                assert(plain_links(links@)[i] == plain_parts(links@[i]));
            }
            assert forall|i: int| 0 <= i < links@.len() implies #[trigger] makes_a_cid(
                links@[i],
            ) by {
                assert(plain_parts(links@[i]).valid());
            }
        },
        None => {
            let i = choose|i: int|
                0 <= i < links.len() && !plain_parts(#[trigger] links@[i]).valid();
            assert(!makes_a_cid(links@[i]));
        },
    }
}

/// Whether there is an identifier with the given parts: version 1 takes any of them with a digest of up to
/// 64 bytes, and version 0 the SHA2-256 digest of a DAG-PB block.
pub open spec fn makes_a_cid(p: (u64, u64, u64, Vec<u8>)) -> bool {
    ||| p.0 == 1 && p.3@.len() <= 64
    ||| p.0 == 0 && p.1 == 0x70 && p.2 == 0x12 && p.3@.len() == 32
}

} // verus!
