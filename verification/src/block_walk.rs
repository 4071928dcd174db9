//! Which blocks are sent, and in what order.

use crate::bloom::{bloom_bits, bloom_fits, in_bloom};
use crate::cid::{Cid, CODEC_RAW};
use crate::cid_set::{lemma_to_set_push, CidSet};
use crate::error::Error;
use crate::ipld::{block_links, codec_supported, references, ReferencesError};
use crate::payload::{bytes_as_slice, bytes_of};
use crate::receiver_state::should_block_be_skipped;
use bytes::Bytes;
use deterministic_bloom::runtime_size::BloomFilter;
use std::collections::VecDeque;
use vstd::prelude::*;

verus! {

/// What decides on the fate of a CID that the walk comes across.
pub struct WalkRules {
    /// Explicitly requested.
    pub requested: Set<Cid>,
    /// Roots below which nothing is needed.
    pub skip_roots: Set<Cid>,
    /// What the receiving end seems to have.
    pub bloom: BloomFilter,
    /// Whether a bloom hit stands for the whole subgraph.
    pub prune_bloom_subgraphs: bool,
}

/// What decides on the fate of a CID that the walk comes across, with a bloom filter that is small
/// enough to be asked.
struct SendRules {
    requested: CidSet,
    skip_roots: CidSet,
    bloom: BloomFilter,
    prune_bloom_subgraphs: bool,
}

impl View for SendRules {
    type V = WalkRules;

    closed spec fn view(&self) -> WalkRules {
        WalkRules {
            requested: self.requested@,
            skip_roots: self.skip_roots@,
            bloom: self.bloom,
            prune_bloom_subgraphs: self.prune_bloom_subgraphs,
        }
    }
}

impl SendRules {
    #[verifier::type_invariant]
    spec fn bloom_can_be_asked(self) -> bool {
        bloom_fits(bloom_bits(self.bloom))
    }
}

impl WalkRules {
    /// A skip root is neither sent nor descended into, but explicitly requested roots always win
    /// over a skip claim.
    pub open spec fn drops(self, cid: Cid) -> bool {
        self.skip_roots.contains(cid) && !self.requested.contains(cid)
    }

    /// What the receiving end seems to have is not sent, but explicitly requested roots always
    /// bypass the bloom filter.
    pub open spec fn skips(self, cid: Cid) -> bool {
        in_bloom(self.bloom, cid.parts().encoding()) && !self.requested.contains(cid)
    }

    /// Whether a block is sent.
    pub open spec fn sends(self, cid: Cid) -> bool {
        !self.drops(cid) && !self.skips(cid)
    }

    /// Whether a block is not sent, but walked through.
    pub open spec fn passes_through(self, cid: Cid) -> bool {
        !self.drops(cid) && self.skips(cid) && !self.prune_bloom_subgraphs && cid.parts().codec
            != CODEC_RAW
    }

    /// Whether the links of a block are followed. Raw blocks carry no links.
    pub open spec fn follows(self, cid: Cid) -> bool {
        self.passes_through(cid) || (self.sends(cid) && cid.parts().codec != CODEC_RAW)
    }

    /// How many CIDs at the front of a level need no links to go on.
    pub open spec fn decided_prefix(self, level: Seq<Cid>) -> nat
        decreases level.len(),
    {
        if level.len() == 0 || self.passes_through(level[0]) {
            0
        } else {
            1 + self.decided_prefix(level.drop_first())
        }
    }

    /// The reads for those of some CIDs that are sent.
    pub open spec fn reads_to_send(self, cids: Seq<Cid>) -> Seq<(Cid, bool)>
        decreases cids.len(),
    {
        if cids.len() == 0 {
            Seq::empty()
        } else if self.sends(cids.last()) {
            self.reads_to_send(cids.drop_last()).push((cids.last(), true))
        } else {
            self.reads_to_send(cids.drop_last())
        }
    }
}

/// The CIDs of a sequence that do not belong to a set, each of them once, in the order of their
/// first occurrence.
pub open spec fn fresh(visited: Set<Cid>, cids: Seq<Cid>) -> Seq<Cid>
    decreases cids.len(),
{
    if cids.len() == 0 {
        Seq::empty()
    } else {
        let before = fresh(visited, cids.drop_last());
        if visited.contains(cids.last()) || before.contains(cids.last()) {
            before
        } else {
            before.push(cids.last())
        }
    }
}

/// How far a walk has got.
#[verifier::ext_equal]
pub struct WalkState {
    /// All that was come across.
    pub visited: Set<Cid>,
    /// What is left of the current level to be classified.
    pub level: Seq<Cid>,
    /// The blocks of the current level that are to be read, and whether they are sent.
    pub to_read: Seq<(Cid, bool)>,
    /// The next level.
    pub next_level: Seq<Cid>,
}

/// What a walk needs to go on.
#[derive(Clone, Copy, Debug)]
pub enum WalkStep {
    /// The links of this block, if they are cached.
    CachedLinks(Cid),
    /// The bytes of this block. The second part says whether it is sent.
    Read(Cid, bool),
    /// Nothing: it is over.
    Done,
}

impl WalkState {
    /// A walk that has not begun.
    pub open spec fn initial(roots: Seq<Cid>) -> WalkState {
        WalkState {
            visited: roots.to_set(),
            level: fresh(Set::empty(), roots),
            to_read: Seq::empty(),
            next_level: Seq::empty(),
        }
    }

    /// The walk once the links of a block were followed.
    pub open spec fn expanded(self, links: Seq<Cid>) -> WalkState {
        WalkState {
            visited: self.visited.union(links.to_set()),
            next_level: self.next_level + fresh(self.visited, links),
            ..self
        }
    }

    /// The walk once a block is set down to be read for its links.
    pub open spec fn set_down(self, cid: Cid) -> WalkState {
        WalkState { to_read: self.to_read.push((cid, false)), ..self }
    }

    /// The reads that the current level is known to need once `n` of its CIDs are classified.
    pub open spec fn reads(self, rules: WalkRules, n: int) -> Seq<(Cid, bool)> {
        self.to_read + rules.reads_to_send(self.level.take(n))
    }

    /// What the current level needs to go on, and the walk with that taken out.
    pub open spec fn step_in_level(self, rules: WalkRules) -> (WalkStep, WalkState) {
        let n = rules.decided_prefix(self.level) as int;
        let reads = self.reads(rules, n);
        if n < self.level.len() {
            (
                WalkStep::CachedLinks(self.level[n]),
                WalkState { level: self.level.skip(n + 1), to_read: reads, ..self },
            )
        } else if reads.len() > 0 {
            (
                WalkStep::Read(reads[0].0, reads[0].1),
                WalkState { level: Seq::empty(), to_read: reads.skip(1), ..self },
            )
        } else {
            (WalkStep::Done, WalkState { level: Seq::empty(), to_read: Seq::empty(), ..self })
        }
    }

    /// The walk with the next level as the current one.
    pub open spec fn descended(self) -> WalkState {
        WalkState { level: self.next_level, next_level: Seq::empty(), ..self }
    }

    /// What the walk needs to go on, and the walk with that taken out. All of a level is read
    /// before the next level is begun.
    pub open spec fn step(self, rules: WalkRules) -> (WalkStep, WalkState) {
        let (need, after) = self.step_in_level(rules);
        if need is Done && self.next_level.len() > 0 {
            after.descended().step_in_level(rules)
        } else {
            (need, after)
        }
    }
}

/// Walks the DAG **breadth-first, one level at a time**, to find the blocks to send.
///
/// Each level is first classified without reading any blocks, and then the needed blocks are read.
/// A block that is not sent and whose links are cached costs no read at all.
pub struct BlockWalk {
    rules: SendRules,
    visited: CidSet,
    level: VecDeque<Cid>,
    to_read: VecDeque<(Cid, bool)>,
    next_level: VecDeque<Cid>,
}

impl View for BlockWalk {
    type V = WalkState;

    closed spec fn view(&self) -> WalkState {
        WalkState {
            visited: self.visited@,
            level: self.level@,
            to_read: self.to_read@,
            next_level: self.next_level@,
        }
    }
}

/// Starts to walk from the given roots, which are explicitly requested.
pub fn stream_blocks_from_roots(
    subgraph_roots: Vec<Cid>,
    bloom: BloomFilter,
    skip_roots: CidSet,
    prune_bloom_subgraphs: bool,
) -> (r: BlockWalk)
    requires
        bloom_fits(bloom_bits(bloom)),
    ensures
        r@ == WalkState::initial(subgraph_roots@),
        r.rules() == (WalkRules {
            requested: subgraph_roots@.to_set(),
            skip_roots: skip_roots@,
            bloom,
            prune_bloom_subgraphs,
        }),
{
    let requested = CidSet::from_slice(subgraph_roots.as_slice());
    let mut r = BlockWalk {
        rules: SendRules { requested, skip_roots, bloom, prune_bloom_subgraphs },
        visited: CidSet::new(),
        level: VecDeque::new(),
        to_read: VecDeque::new(),
        next_level: VecDeque::new(),
    };
    r.expand(subgraph_roots);
    proof {
        assert(Set::<Cid>::empty().union(subgraph_roots@.to_set()) =~= subgraph_roots@.to_set());
        assert(Seq::<Cid>::empty() + fresh(Set::empty(), subgraph_roots@) =~= fresh(
            Set::empty(),
            subgraph_roots@,
        ));
    }
    let mut level: VecDeque<Cid> = VecDeque::new();
    std::mem::swap(&mut level, &mut r.next_level);
    r.level = level;
    proof {
        assert(r@ =~= WalkState::initial(subgraph_roots@));
    }
    r
}

impl BlockWalk {
    /// What decides on the fate of a CID.
    pub closed spec fn rules(self) -> WalkRules {
        self.rules@
    }

    /// Follows the links of a block.
    fn expand(&mut self, links: Vec<Cid>)
        ensures
            final(self)@ == old(self)@.expanded(links@),
            final(self).rules() == old(self).rules(),
    {
        let mut i: usize = 0;
        proof {
            assert(links@.take(0) =~= Seq::<Cid>::empty());
            assert(self@ =~= old(self)@.expanded(links@.take(0)));
        }
        while i < links.len()
            invariant
                i <= links.len(),
                self@ == old(self)@.expanded(links@.take(i as int)),
                self.rules() == old(self).rules(),
            decreases links.len() - i,
        {
            let link = links[i];
            let ghost before = links@.take(i as int);
            let ghost after = links@.take(i + 1);
            proof {
                assert(after.drop_last() =~= before);
                assert(after =~= before.push(link));
                lemma_to_set_push(before, link);
                lemma_fresh(old(self)@.visited, before);
            }
            if self.visited.insert(link) {
                self.next_level.push_back(link);
            }
            proof {
                assert(self@ =~= old(self)@.expanded(after));
            }
            i = i + 1;
        }
        proof {
            assert(links@.take(i as int) =~= links@);
        }
    }

    /// What the walk needs to go on.
    pub fn next_step(&mut self) -> (r: WalkStep)
        ensures
            (r, final(self)@) == old(self)@.step(old(self).rules()),
            final(self).rules() == old(self).rules(),
    {
        let step = self.step_in_level();
        match step {
            WalkStep::Done => {
                if self.next_level.len() > 0 {
                    let mut level: VecDeque<Cid> = VecDeque::new();
                    std::mem::swap(&mut level, &mut self.next_level);
                    self.level = level;
                    proof {
                        assert(self@ =~= old(self)@.step_in_level(
                            old(self).rules(),
                        ).1.descended());
                    }
                    return self.step_in_level();
                }
            },
            _ => {},
        }
        step
    }

    fn step_in_level(&mut self) -> (r: WalkStep)
        ensures
            (r, final(self)@) == old(self)@.step_in_level(old(self).rules()),
            final(self).rules() == old(self).rules(),
    {
        let ghost start = self@;
        let ghost rules = self.rules();
        let ghost n = rules.decided_prefix(start.level) as int;
        let ghost mut i: int = 0;
        proof {
            lemma_decided_prefix(rules, start.level);
            assert(start.level.skip(0) =~= start.level);
            assert(start.level.take(0) =~= Seq::<Cid>::empty());
            assert(start.reads(rules, 0) =~= start.to_read);
        }
        loop
            invariant
                start == old(self)@,
                rules == old(self).rules(),
                self.rules() == rules,
                n == rules.decided_prefix(start.level),
                0 <= i <= n <= start.level.len(),
                forall|j: int| 0 <= j < n ==> !rules.passes_through(#[trigger] start.level[j]),
                n < start.level.len() ==> rules.passes_through(start.level[n]),
                self@ == (WalkState {
                    level: start.level.skip(i),
                    to_read: start.reads(rules, i),
                    ..start
                }),
            decreases start.level.len() - i,
        {
            match self.level.pop_front() {
                None => {
                    proof {
                        assert(start.level.skip(i).len() == 0);
                        assert(self@.level =~= Seq::<Cid>::empty());
                    }
                    return match self.to_read.pop_front() {
                        Some((cid, emit)) => {
                            proof {
                                assert(self@ =~= start.step_in_level(rules).1);
                            }
                            WalkStep::Read(cid, emit)
                        },
                        None => {
                            proof {
                                assert(self@ =~= start.step_in_level(rules).1);
                            }
                            WalkStep::Done
                        },
                    };
                },
                Some(cid) => {
                    proof {
                        use_type_invariant(&self.rules);
                        assert(cid == start.level[i]);
                        assert(self@.level =~= start.level.skip(i + 1));
                        assert(start.level.take(i + 1).drop_last() =~= start.level.take(i));
                        assert(start.level.take(i + 1).last() == cid);
                    }
                    if self.rules.skip_roots.contains(&cid) && !self.rules.requested.contains(&cid) {
                        proof {
                            assert(i < n);
                            assert(self@ =~= (WalkState {
                                level: start.level.skip(i + 1),
                                to_read: start.reads(rules, i + 1),
                                ..start
                            }));
                            i = i + 1;
                        }
                    } else if !should_block_be_skipped(
                        &cid,
                        &self.rules.bloom,
                        &self.rules.requested,
                    ) {
                        self.to_read.push_back((cid, true));
                        proof {
                            assert(i < n);
                            assert(self@ =~= (WalkState {
                                level: start.level.skip(i + 1),
                                to_read: start.reads(rules, i + 1),
                                ..start
                            }));
                            i = i + 1;
                        }
                    } else if self.rules.prune_bloom_subgraphs || cid.codec() == CODEC_RAW {
                        proof {
                            assert(i < n);
                            assert(self@ =~= (WalkState {
                                level: start.level.skip(i + 1),
                                to_read: start.reads(rules, i + 1),
                                ..start
                            }));
                            i = i + 1;
                        }
                    } else {
                        proof {
                            assert(i == n);
                            assert(self@ =~= start.step_in_level(rules).1);
                        }
                        return WalkStep::CachedLinks(cid);
                    }
                },
            }
        }
    }

    /// Goes on with the links of a block, if they are cached, or else sets the block down to be
    /// read.
    pub fn links_cached(&mut self, cid: Cid, cached: Option<Vec<Cid>>)
        ensures
            final(self)@ == (match cached {
                Some(links) => old(self)@.expanded(links@),
                None => old(self)@.set_down(cid),
            }),
            final(self).rules() == old(self).rules(),
    {
        match cached {
            Some(links) => self.expand(links),
            None => {
                self.to_read.push_back((cid, false));
                proof {
                    assert(self@ =~= old(self)@.set_down(cid));
                }
            },
        }
    }

    /// Goes on with a block that was read. Its links are those that are cached, or else those that
    /// its bytes contain, which are handed out to be cached. Raw blocks carry no links.
    pub fn block_read(&mut self, cid: Cid, bytes: &Bytes, cached: Option<Vec<Cid>>) -> (r: Result<
        Option<Vec<Cid>>,
        Error,
    >)
        ensures
            final(self).rules() == old(self).rules(),
            ({
                let parsed = block_links(cid.parts().codec, bytes_of(*bytes));
                match r {
                    Ok(to_cache) => {
                        if cid.parts().codec == CODEC_RAW {
                            to_cache is None && final(self)@ == old(self)@
                        } else if cached is Some {
                            to_cache is None && final(self)@ == old(self)@.expanded(cached->0@)
                        } else {
                            &&& parsed is Some
                            &&& to_cache is Some && to_cache->0@ == parsed->0
                            &&& final(self)@ == old(self)@.expanded(parsed->0)
                        }
                    },
                    Err(Error::ParsingError(ReferencesError::UnsupportedCodec { cid: c })) => {
                        &&& c == cid && cached is None
                        &&& !codec_supported(cid.parts().codec)
                        &&& final(self)@ == old(self)@
                    },
                    Err(Error::ParsingError(ReferencesError::Undecodable { cid: c })) => {
                        &&& c == cid && cached is None && cid.parts().codec != CODEC_RAW
                        &&& codec_supported(cid.parts().codec) && parsed is None
                        &&& final(self)@ == old(self)@
                    },
                    Err(_) => false,
                }
            }),
    {
        if cid.codec() == CODEC_RAW {
            return Ok(None);
        }
        match cached {
            Some(links) => {
                self.expand(links);
                Ok(None)
            },
            None => {
                match references(cid, bytes_as_slice(bytes), Vec::new()) {
                    Ok(links) => {
                        proof {
                            assert(Seq::<Cid>::empty() + block_links(
                                cid.parts().codec,
                                bytes_of(*bytes),
                            )->0 =~= block_links(cid.parts().codec, bytes_of(*bytes))->0);
                        }
                        let to_cache = copy_cids(links.as_slice());
                        self.expand(links);
                        Ok(Some(to_cache))
                    },
                    Err(e) => Err(Error::ParsingError(e)),
                }
            },
        }
    }

    /// The blocks that will be read next, so that reads can overlap.
    pub fn upcoming_reads(&self) -> (r: Vec<Cid>)
        ensures
            r@ == self@.to_read.map_values(|read: (Cid, bool)| read.0),
    {
        let ghost all = self@.to_read.map_values(|read: (Cid, bool)| read.0);
        let mut out: Vec<Cid> = Vec::new();
        let mut i: usize = 0;
        while i < self.to_read.len()
            invariant
                i <= self.to_read.len(),
                all == self.to_read@.map_values(|read: (Cid, bool)| read.0),
                out@ == all.take(i as int),
            decreases self.to_read.len() - i,
        {
            out.push(self.to_read[i].0);
            proof {
                assert(all.take(i + 1) =~= all.take(i as int).push(all[i as int]));
            }
            i = i + 1;
        }
        proof {
            assert(all.take(i as int) =~= all);
        }
        out
    }
}

fn copy_cids(cids: &[Cid]) -> (r: Vec<Cid>)
    ensures
        r@ == cids@,
{
    let mut out: Vec<Cid> = Vec::new();
    let mut i: usize = 0;
    while i < cids.len()
        invariant
            i <= cids.len(),
            out@ == cids@.take(i as int),
        decreases cids.len() - i,
    {
        out.push(cids[i]);
        proof {
            assert(cids@.take(i + 1) =~= cids@.take(i as int).push(cids@[i as int]));
        }
        i = i + 1;
    }
    proof {
        assert(cids@.take(i as int) =~= cids@);
    }
    out
}

/// Fresh CIDs are those that are not in the set.
pub proof fn lemma_fresh(visited: Set<Cid>, cids: Seq<Cid>)
    ensures
        fresh(visited, cids).to_set() == cids.to_set().difference(visited),
        fresh(visited, cids).no_duplicates(),
        forall|c: Cid|
            #[trigger] fresh(visited, cids).contains(c) <==> cids.contains(c) && !visited.contains(
                c,
            ),
    decreases cids.len(),
{
    if cids.len() > 0 {
        let before = cids.drop_last();
        let last = cids.last();
        lemma_fresh(visited, before);
        assert(cids =~= before.push(last));
        lemma_to_set_push(before, last);
        lemma_to_set_push(fresh(visited, before), last);
        assert(fresh(visited, cids).to_set() =~= cids.to_set().difference(visited));
    } else {
        assert(fresh(visited, cids).to_set() =~= cids.to_set().difference(visited));
    }
    assert forall|c: Cid|
        #[trigger] fresh(visited, cids).contains(c) <==> cids.contains(c) && !visited.contains(
            c,
        ) by {
        assert(fresh(visited, cids).to_set().contains(c) == cids.to_set().difference(
            visited,
        ).contains(c));
    }
}

/// What needs no links is not walked through, and what needs them is.
pub proof fn lemma_decided_prefix(rules: WalkRules, level: Seq<Cid>)
    ensures
        rules.decided_prefix(level) <= level.len(),
        forall|j: int|
            0 <= j < rules.decided_prefix(level) ==> !rules.passes_through(#[trigger] level[j]),
        rules.decided_prefix(level) < level.len() ==> rules.passes_through(
            level[rules.decided_prefix(level) as int],
        ),
    decreases level.len(),
{
    if level.len() > 0 && !rules.passes_through(level[0]) {
        let rest = level.drop_first();
        lemma_decided_prefix(rules, rest);
        assert forall|j: int| 0 <= j < rules.decided_prefix(level) implies !rules.passes_through(
            #[trigger] level[j],
        ) by {
            if j > 0 {
                assert(level[j] == rest[j - 1]);
            }
        }
    }
}

} // verus!
