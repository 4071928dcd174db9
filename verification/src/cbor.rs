//! The frame of a DAG-CBOR block: which items it is made of and where each one ends.
//!
//! The links of a block are read by an outside parser that follows the headers of the items. This
//! module decides whether that walk comes to an end, how deep it leads, and where the links are. It
//! reads no item's content.

use vstd::prelude::*;

verus! {

/// An open array whose items are ended by a break byte.
pub const UNTIL_BREAK: i128 = -1;

/// An open map whose pairs are ended by a break byte.
pub const PAIRS_UNTIL_BREAK: i128 = -2;

/// An open map whose last key still lacks its value.
pub const VALUE_OF_PAIR: i128 = -3;

/// How deep items may be nested to be followed by recursion, which needs that much of a stack.
pub const MAX_NESTING: usize = 1024;

/// How many bytes follow an item's first byte to give its argument: none if the argument stands in
/// the first byte itself.
pub open spec fn argument_len(first: u8) -> int {
    let low = first % 32;
    if low < 24 {
        0
    } else if low == 24 {
        1
    } else if low == 25 {
        2
    } else if low == 26 {
        4
    } else {
        8
    }
}

/// The argument of the item at `pos`, big-endian.
pub open spec fn argument(block: Seq<u8>, pos: int) -> int {
    let n = argument_len(block[pos]);
    if n == 0 {
        (block[pos] % 32) as int
    } else if n == 1 {
        block[pos + 1] as int
    } else if n == 2 {
        block[pos + 1] * 0x100 + block[pos + 2]
    } else if n == 4 {
        block[pos + 1] * 0x100_0000 + block[pos + 2] * 0x1_0000 + block[pos + 3] * 0x100 + block[pos
            + 4]
    } else {
        block[pos + 1] * 0x100_0000_0000_0000 + block[pos + 2] * 0x1_0000_0000_0000 + block[pos + 3]
            * 0x100_0000_0000 + block[pos + 4] * 0x1_0000_0000 + block[pos + 5] * 0x100_0000
            + block[pos + 6] * 0x1_0000 + block[pos + 7] * 0x100 + block[pos + 8]
    }
}

/// Where the content of the item at `pos` starts, and how many items it is made of: a count, or one
/// of the two marks of an open collection. Nothing if the item cannot be followed: the block ends
/// within its header, it has no known kind, it is a string of 2^32 bytes or more that the block does
/// not hold, or it announces more items than the block has bytes.
pub open spec fn item(block: Seq<u8>, pos: int) -> Option<(int, int)> {
    let first = block[pos];
    let kind = first / 32;
    let low = first % 32;
    let after = pos + 1 + argument_len(first);
    if kind <= 1 {
        if low <= 27 {
            Some((after, 0))
        } else {
            None
        }
    } else if kind <= 3 {
        if low <= 27 && after <= block.len() && (argument(block, pos) < 0x1_0000_0000 || after
            + argument(block, pos) <= block.len()) {
            Some((after + argument(block, pos), 0))
        } else {
            None
        }
    } else if kind == 4 {
        if low == 31 {
            Some((pos + 1, UNTIL_BREAK as int))
        } else if low <= 27 && after <= block.len() && argument(block, pos) <= block.len() {
            Some((after, argument(block, pos)))
        } else {
            None
        }
    } else if kind == 5 {
        if low == 31 {
            Some((pos + 1, PAIRS_UNTIL_BREAK as int))
        } else if low <= 27 && after <= block.len() && 2 * argument(block, pos) <= block.len() {
            Some((after, 2 * argument(block, pos)))
        } else {
            None
        }
    } else if kind == 6 {
        if low != 24 || after > block.len() {
            None
        } else if block[pos + 1] != 42 {
            Some((after, 1))
        } else if pos + 4 <= block.len() && block[pos + 2] == 0x58 && block[pos + 3] > 0 && pos + 4
            + block[pos + 3] <= block.len() {
            Some((pos + 4 + block[pos + 3], 0))
        } else {
            None
        }
    } else if low < 20 || low > 27 {
        None
    } else {
        Some((after, 0))
    }
}

/// How the walk through the items goes on at `pos`: where, and with which open items. Of these `open`
/// gives how many items each still lacks, the innermost last. The outermost one stands for the block
/// itself.
pub open spec fn step(block: Seq<u8>, pos: int, open: Seq<int>) -> Option<(int, Seq<int>)> {
    if open.last() == 0 {
        Some((pos, open.drop_last()))
    } else if pos < 0 || pos >= block.len() {
        None
    } else if block[pos] == 0xff && (open.last() == UNTIL_BREAK || open.last()
        == PAIRS_UNTIL_BREAK) {
        Some((pos + 1, open.drop_last()))
    } else {
        let rest = if open.last() > 0 {
            open.drop_last().push(open.last() - 1)
        } else if open.last() == PAIRS_UNTIL_BREAK {
            open.drop_last().push(VALUE_OF_PAIR as int)
        } else if open.last() == VALUE_OF_PAIR {
            open.drop_last().push(PAIRS_UNTIL_BREAK as int)
        } else {
            open
        };
        match item(block, pos) {
            Some((next, count)) => if next > pos {
                Some((next, rest.push(count)))
            } else {
                None
            },
            None => None,
        }
    }
}

/// How many bytes are left at a position.
pub open spec fn bytes_left(block: Seq<u8>, pos: int) -> int {
    if pos < block.len() {
        block.len() - pos
    } else {
        0
    }
}

/// Whether the items from `pos` on complete the open items.
pub open spec fn completes(block: Seq<u8>, pos: int, open: Seq<int>) -> bool
    decreases bytes_left(block, pos), open.len(),
{
    if open.len() == 0 {
        true
    } else {
        match step(block, pos, open) {
            Some((next, rest)) => completes(block, next, rest),
            None => false,
        }
    }
}

/// How many items are open at once at most from `pos` on.
pub open spec fn nesting_from(block: Seq<u8>, pos: int, open: Seq<int>) -> nat
    decreases bytes_left(block, pos), open.len(),
{
    if open.len() == 0 {
        0
    } else {
        match step(block, pos, open) {
            Some((next, rest)) => {
                let deepest = nesting_from(block, next, rest);
                if deepest > open.len() {
                    deepest
                } else {
                    open.len()
                }
            },
            None => open.len(),
        }
    }
}

/// Whether a link is next.
pub open spec fn link_is_next(block: Seq<u8>, pos: int, open: Seq<int>) -> bool {
    open.last() != 0 && block[pos] == 0xd8 && block[pos + 1] == 42
}

/// The links from `pos` on, each of them as the bytes of its item.
pub open spec fn links_from(block: Seq<u8>, pos: int, open: Seq<int>) -> Seq<Seq<u8>>
    decreases bytes_left(block, pos), open.len(),
{
    if open.len() == 0 {
        Seq::empty()
    } else {
        match step(block, pos, open) {
            Some((next, rest)) => {
                let links = links_from(block, next, rest);
                if link_is_next(block, pos, open) {
                    seq![block.subrange(pos, next)] + links
                } else {
                    links
                }
            },
            None => Seq::empty(),
        }
    }
}

/// Whether a block starts with an item that can be followed to its end.
pub open spec fn walkable(block: Seq<u8>) -> bool {
    completes(block, 0, seq![1int])
}

/// Whether the items of a block are not nested too deep to be followed by recursion.
pub open spec fn shallow(block: Seq<u8>) -> bool {
    nesting_from(block, 0, seq![1int]) <= MAX_NESTING + 1
}

/// The links in a block, in the order in which they stand in it, each of them as the bytes of its
/// item.
pub open spec fn link_items(block: Seq<u8>) -> Seq<Seq<u8>> {
    links_from(block, 0, seq![1int])
}

/// Parts of a block, of each of which the start and the end are given.
pub open spec fn parts_of(block: Seq<u8>, ranges: Seq<(usize, usize)>) -> Seq<Seq<u8>> {
    ranges.map_values(|range: (usize, usize)| block.subrange(range.0 as int, range.1 as int))
}

/// What is known of a block that can be followed to its end.
pub struct Frame {
    /// Whether its items are not nested too deep to be followed by recursion.
    pub is_shallow: bool,
    /// Where its links start and end, in the order in which they stand in it.
    pub links: Vec<(usize, usize)>,
}

impl Frame {
    /// Whether this is known of the given block.
    pub open spec fn describes(self, block: Seq<u8>) -> bool {
        &&& self.is_shallow == shallow(block)
        &&& parts_of(block, self.links@) == link_items(block)
        &&& forall|i: int|
            0 <= i < self.links.len() ==> (#[trigger] self.links[i]).0 < self.links[i].1
                <= block.len()
    }
}

fn read_argument(block: &[u8], pos: usize) -> (r: Option<u64>)
    requires
        pos < block.len(),
    ensures
        r is Some <==> pos + 1 + argument_len(block@[pos as int]) <= block.len(),
        r matches Some(n) ==> n == argument(block@, pos as int),
{
    let low: u8 = block[pos] % 32;
    let left: usize = block.len() - pos;
    if low < 24 {
        Some(low as u64)
    } else if low == 24 {
        if left < 2 {
            return None;
        }
        Some(block[pos + 1] as u64)
    } else if low == 25 {
        if left < 3 {
            return None;
        }
        Some(block[pos + 1] as u64 * 0x100 + block[pos + 2] as u64)
    } else if low == 26 {
        if left < 5 {
            return None;
        }
        Some(
            block[pos + 1] as u64 * 0x100_0000 + block[pos + 2] as u64 * 0x1_0000 + block[pos
                + 3] as u64 * 0x100 + block[pos + 4] as u64,
        )
    } else {
        if left < 9 {
            return None;
        }
        Some(
            block[pos + 1] as u64 * 0x100_0000_0000_0000 + block[pos + 2] as u64
                * 0x1_0000_0000_0000 + block[pos + 3] as u64 * 0x100_0000_0000 + block[pos
                + 4] as u64 * 0x1_0000_0000 + block[pos + 5] as u64 * 0x100_0000 + block[pos
                + 6] as u64 * 0x1_0000 + block[pos + 7] as u64 * 0x100 + block[pos + 8] as u64,
        )
    }
}

fn read_item(block: &[u8], pos: usize) -> (r: Option<(u128, i128)>)
    requires
        pos < block.len(),
    ensures
        r is Some <==> item(block@, pos as int) is Some,
        r matches Some(p) ==> (p.0 as int, p.1 as int) == item(block@, pos as int)->0,
        r matches Some(p) ==> pos < p.0 && -2 <= p.1 <= usize::MAX,
{
    let first: u8 = block[pos];
    let kind: u8 = first / 32;
    let low: u8 = first % 32;
    let extra: u128 = if low < 24 {
        0
    } else if low == 24 {
        1
    } else if low == 25 {
        2
    } else if low == 26 {
        4
    } else {
        8
    };
    let after: u128 = pos as u128 + 1 + extra;
    if kind <= 1 {
        if low <= 27 {
            Some((after, 0))
        } else {
            None
        }
    } else if kind <= 3 {
        if low > 27 {
            return None;
        }
        match read_argument(block, pos) {
            Some(n) => {
                if n < 0x1_0000_0000 || after + n as u128 <= block.len() as u128 {
                    Some((after + n as u128, 0))
                } else {
                    None
                }
            },
            None => None,
        }
    } else if kind == 4 {
        if low == 31 {
            return Some((pos as u128 + 1, UNTIL_BREAK));
        }
        if low > 27 {
            return None;
        }
        match read_argument(block, pos) {
            Some(n) => {
                if n as u128 <= block.len() as u128 {
                    Some((after, n as i128))
                } else {
                    None
                }
            },
            None => None,
        }
    } else if kind == 5 {
        if low == 31 {
            return Some((pos as u128 + 1, PAIRS_UNTIL_BREAK));
        }
        if low > 27 {
            return None;
        }
        match read_argument(block, pos) {
            Some(n) => {
                if 2 * (n as u128) <= block.len() as u128 {
                    Some((after, 2 * (n as i128)))
                } else {
                    None
                }
            },
            None => None,
        }
    } else if kind == 6 {
        if low != 24 || after > block.len() as u128 {
            return None;
        }
        if block[pos + 1] != 42 {
            return Some((after, 1));
        }
        if block.len() - pos < 4 || block[pos + 2] != 0x58 || block[pos + 3] == 0 {
            return None;
        }
        let end: u128 = pos as u128 + 4 + block[pos + 3] as u128;
        if end <= block.len() as u128 {
            Some((end, 0))
        } else {
            None
        }
    } else if low < 20 || low > 27 {
        None
    } else {
        Some((after, 0))
    }
}

/// Follows the items of a block to its end, if that can be done.
pub fn read_frame(block: &[u8]) -> (r: Option<Frame>)
    ensures
        r is Some <==> walkable(block@),
        r matches Some(frame) ==> frame.describes(block@),
{
    let mut open: Vec<i128> = Vec::new();
    open.push(1);
    let mut pos: usize = 0;
    let mut is_shallow: bool = true;
    let mut links: Vec<(usize, usize)> = Vec::new();
    let ghost mut left: Seq<int> = seq![1int];
    proof {
        assert(open@.map_values(|n: i128| n as int) =~= left);
        assert(parts_of(block@, links@) + links_from(block@, 0, left) =~= link_items(block@));
    }
    while open.len() > 0
        invariant
            left == open@.map_values(|n: i128| n as int),
            forall|i: int| 0 <= i < open.len() ==> -3 <= #[trigger] open[i] <= usize::MAX,
            walkable(block@) == completes(block@, pos as int, left),
            shallow(block@) == (is_shallow && nesting_from(block@, pos as int, left) <= MAX_NESTING
                + 1),
            link_items(block@) == parts_of(block@, links@) + links_from(block@, pos as int, left),
            forall|i: int|
                0 <= i < links.len() ==> (#[trigger] links[i]).0 < links[i].1 <= block.len(),
            pos <= block.len(),
        decreases block.len() - pos, open.len(),
    {
        let ghost before = left;
        if open.len() > MAX_NESTING + 1 {
            is_shallow = false;
        }
        let top: i128 = open[open.len() - 1];
        proof {
            assert(left.last() == top);
        }
        if top == 0 {
            open.pop();
            proof {
                left = left.drop_last();
                assert(left =~= open@.map_values(|n: i128| n as int));
            }
            continue;
        }
        if pos >= block.len() {
            return None;
        }
        if block[pos] == 0xff && (top == UNTIL_BREAK || top == PAIRS_UNTIL_BREAK) {
            open.pop();
            pos = pos + 1;
            proof {
                left = left.drop_last();
                assert(left =~= open@.map_values(|n: i128| n as int));
            }
            continue;
        }
        match read_item(block, pos) {
            None => {
                return None;
            },
            Some((next, count)) => {
                if top > 0 {
                    open.pop();
                    open.push(top - 1);
                    proof {
                        left = left.drop_last().push(top - 1);
                    }
                } else if top == PAIRS_UNTIL_BREAK {
                    open.pop();
                    open.push(VALUE_OF_PAIR);
                    proof {
                        left = left.drop_last().push(VALUE_OF_PAIR as int);
                    }
                } else if top == VALUE_OF_PAIR {
                    open.pop();
                    open.push(PAIRS_UNTIL_BREAK);
                    proof {
                        left = left.drop_last().push(PAIRS_UNTIL_BREAK as int);
                    }
                }
                open.push(count);
                proof {
                    left = left.push(count as int);
                    assert(left =~= open@.map_values(|n: i128| n as int));
                    assert(step(block@, pos as int, before) == Some((next as int, left)));
                }
                let start: usize = pos;
                if next >= block.len() as u128 {
                    proof {
                        lemma_past_the_end(block@, next as int, block.len() as int, left);
                    }
                    pos = block.len();
                } else {
                    pos = next as usize;
                }
                if block[start] == 0xd8 && block[start + 1] == 42 {
                    let ghost earlier = links@;
                    links.push((start, pos));
                    proof {
                        let part = block@.subrange(start as int, pos as int);
                        assert(parts_of(block@, links@) =~= parts_of(block@, earlier).push(part));
                        assert(parts_of(block@, links@) + links_from(block@, pos as int, left)
                            =~= parts_of(block@, earlier) + (seq![part] + links_from(
                            block@,
                            pos as int,
                            left,
                        )));
                    }
                }
            },
        }
    }
    proof {
        assert(parts_of(block@, links@) + Seq::<Seq<u8>>::empty() =~= parts_of(block@, links@));
    }
    Some(Frame { is_shallow, links })
}

/// Past the end of the block all positions are alike.
proof fn lemma_past_the_end(block: Seq<u8>, a: int, b: int, open: Seq<int>)
    requires
        a >= block.len(),
        b >= block.len(),
    ensures
        completes(block, a, open) == completes(block, b, open),
        nesting_from(block, a, open) == nesting_from(block, b, open),
        links_from(block, a, open) == links_from(block, b, open),
    decreases open.len(),
{
    if open.len() > 0 && open.last() == 0 {
        lemma_past_the_end(block, a, b, open.drop_last());
    }
}

/// Whether some bytes are a link and nothing else.
pub open spec fn is_link_item(part: Seq<u8>) -> bool {
    &&& part.len() >= 4
    &&& part[0] == 0xd8 && part[1] == 42 && part[2] == 0x58
    &&& part[3] > 0 && part.len() == 4 + part[3]
}

/// The links in a block are nothing but links.
pub proof fn link_items_are_links(block: Seq<u8>)
    ensures
        forall|i: int|
            0 <= i < link_items(block).len() ==> is_link_item(#[trigger] link_items(block)[i]),
{
    lemma_links_are_links(block, 0, seq![1int]);
}

proof fn lemma_links_are_links(block: Seq<u8>, pos: int, open: Seq<int>)
    ensures
        forall|i: int|
            0 <= i < links_from(block, pos, open).len() ==> is_link_item(
                #[trigger] links_from(block, pos, open)[i],
            ),
    decreases bytes_left(block, pos), open.len(),
{
    if open.len() > 0 {
        match step(block, pos, open) {
            Some((next, rest)) => {
                lemma_links_are_links(block, next, rest);
                let links = links_from(block, next, rest);
                if link_is_next(block, pos, open) {
                    let part = block.subrange(pos, next);
                    assert(is_link_item(part));
                    assert forall|i: int|
                        0 <= i < links_from(block, pos, open).len() implies is_link_item(
                        #[trigger] links_from(block, pos, open)[i],
                    ) by {
                        assert(links_from(block, pos, open) == seq![part] + links);
                        if i > 0 {
                            assert(links_from(block, pos, open)[i] == links[i - 1]);
                        }
                    }
                }
            },
            None => {},
        }
    }
}

/// A link by itself can be followed to its end, is not nested deep, and is its only link.
pub proof fn link_item_stands_alone(part: Seq<u8>)
    requires
        is_link_item(part),
    ensures
        walkable(part),
        shallow(part),
        link_items(part) == seq![part],
{
    let end = part.len() as int;
    assert(seq![1int].drop_last().push(0).push(0) =~= seq![0int, 0int]);
    assert(step(part, 0, seq![1int]) == Some((end, seq![0int, 0int])));
    assert(seq![0int, 0int].drop_last() =~= seq![0int]);
    assert(seq![0int].drop_last() =~= Seq::<int>::empty());
    assert(step(part, end, seq![0int, 0int]) == Some((end, seq![0int])));
    assert(step(part, end, seq![0int]) == Some((end, Seq::<int>::empty())));
    reveal_with_fuel(completes, 4);
    reveal_with_fuel(nesting_from, 4);
    reveal_with_fuel(links_from, 4);
    assert(part.subrange(0, end) =~= part);
    assert(link_items(part) =~= seq![part]);
}

} // verus!
