//! Finite sets of content identifiers.

use crate::cid::{order_goes_by_parts, parts_before, Cid, Order};
use vstd::prelude::*;

verus! {

/// Strictly ascending, so without repetition.
pub open spec fn ascending(s: Seq<Cid>) -> bool {
    forall|i: int, j: int| 0 <= i < j < s.len() ==> #[trigger] s[i].before(#[trigger] s[j])
}

/// The members of a finite set in ascending order.
pub open spec fn in_order(cids: Set<Cid>) -> Seq<Cid> {
    choose|s: Seq<Cid>| ascending(s) && s.to_set() == cids
}

/// What is in ascending order is ordered by what the identifiers say.
pub proof fn ascending_goes_by_parts(s: Seq<Cid>, i: int, j: int)
    requires
        ascending(s),
        0 <= i < j < s.len(),
        s[i].stored(),
        s[j].stored(),
    ensures
        parts_before(s[i].parts(), s[j].parts()),
{
    order_goes_by_parts(s[i], s[j]);
}

/// An ascending sequence is determined by its members.
pub proof fn ascending_is_unique(s: Seq<Cid>, t: Seq<Cid>)
    requires
        ascending(s),
        ascending(t),
        s.to_set() == t.to_set(),
    ensures
        s == t,
    decreases s.len(),
{
    if s.len() == 0 {
        if t.len() > 0 {
            assert(t.to_set().contains(t[0]));
            assert(s.to_set().contains(t[0]));
        }
        assert(s =~= t);
    } else {
        assert(s.to_set().contains(s.last()));
        assert(t.to_set().contains(s.last()));
        let k = choose|k: int| 0 <= k < t.len() && t[k] == s.last();
        assert(t.to_set().contains(t.last()));
        assert(s.to_set().contains(t.last()));
        let m = choose|m: int| 0 <= m < s.len() && s[m] == t.last();
        if k < t.len() - 1 {
            assert(t[k].before(t[t.len() - 1]));
            Cid::order_is_strict(s.last(), t.last());
            if m < s.len() - 1 {
                assert(s[m].before(s[s.len() - 1]));
            }
            assert(false);
        }
        let s0 = s.drop_last();
        let t0 = t.drop_last();
        assert forall|c: Cid| s0.to_set().contains(c) <==> t0.to_set().contains(c) by {
            if s0.to_set().contains(c) {
                let i = choose|i: int| 0 <= i < s0.len() && s0[i] == c;
                assert(s[i].before(s[s.len() - 1]));
                Cid::order_is_strict(s[i], s.last());
                assert(s.to_set().contains(s[i]));
                assert(t.to_set().contains(c));
                let j = choose|j: int| 0 <= j < t.len() && t[j] == c;
                assert(t0[j] == c);
            }
            if t0.to_set().contains(c) {
                let i = choose|i: int| 0 <= i < t0.len() && t0[i] == c;
                assert(t[i].before(t[t.len() - 1]));
                Cid::order_is_strict(t[i], t.last());
                assert(t.to_set().contains(t[i]));
                assert(s.to_set().contains(c));
                let j = choose|j: int| 0 <= j < s.len() && s[j] == c;
                assert(s0[j] == c);
            }
        }
        assert(s0.to_set() =~= t0.to_set());
        ascending_is_unique(s0, t0);
        assert(s =~= s0.push(s.last()));
        assert(t =~= t0.push(t.last()));
    }
}

/// An ascending sequence is its set of members in ascending order.
pub proof fn in_order_of_ascending(s: Seq<Cid>)
    requires
        ascending(s),
    ensures
        in_order(s.to_set()) == s,
{
    let t = in_order(s.to_set());
    assert(ascending(t) && t.to_set() == s.to_set());
    ascending_is_unique(t, s);
}

/// A finite set of identifiers, kept in ascending order.
#[derive(Debug)]
pub struct CidSet {
    items: Vec<Cid>,
}

impl View for CidSet {
    type V = Set<Cid>;

    closed spec fn view(&self) -> Set<Cid> {
        self.items@.to_set()
    }
}

impl CidSet {
    #[verifier::type_invariant]
    spec fn kept_ascending(self) -> bool {
        ascending(self.items@)
    }

    /// The empty set.
    pub fn new() -> (r: CidSet)
        ensures
            r@ == Set::<Cid>::empty(),
    {
        let r = CidSet { items: Vec::new() };
        proof {
            assert(r.items@.to_set() =~= Set::<Cid>::empty());
        }
        r
    }

    /// The set of the given identifiers.
    pub fn from_slice(cids: &[Cid]) -> (r: CidSet)
        ensures
            r@ == cids@.to_set(),
    {
        let mut r = CidSet::new();
        let mut i: usize = 0;
        proof {
            assert(cids@.take(0).to_set() =~= Set::<Cid>::empty());
        }
        while i < cids.len()
            invariant
                i <= cids.len(),
                r@ == cids@.take(i as int).to_set(),
            decreases cids.len() - i,
        {
            let ghost before = cids@.take(i as int);
            let ghost after = cids@.take(i + 1);
            r.insert(cids[i]);
            proof {
                lemma_to_set_push(before, cids[i as int]);
                assert(after =~= before.push(cids[i as int]));
            }
            i = i + 1;
        }
        proof {
            assert(cids@.take(cids.len() as int) =~= cids@);
        }
        r
    }

    /// Where `cid` stands or would have to stand.
    fn position(&self, cid: &Cid) -> (r: (bool, usize))
        ensures
            r.1 <= self.items.len(),
            forall|i: int| 0 <= i < r.1 ==> (#[trigger] self.items[i]).before(*cid),
            r.0 ==> r.1 < self.items.len() && self.items[r.1 as int] == *cid,
            !r.0 ==> forall|i: int|
                r.1 <= i < self.items.len() ==> cid.before(#[trigger] self.items[i]),
            r.0 == self@.contains(*cid),
    {
        proof {
            use_type_invariant(self);
        }
        let mut low: usize = 0;
        let mut high: usize = self.items.len();
        while low < high
            invariant
                low <= high <= self.items.len(),
                ascending(self.items@),
                forall|i: int| 0 <= i < low ==> (#[trigger] self.items[i]).before(*cid),
                forall|i: int|
                    high <= i < self.items.len() ==> cid.before(#[trigger] self.items[i]),
            decreases high - low,
        {
            let middle: usize = low + (high - low) / 2;
            match self.items[middle].order(cid) {
                Order::Less => {
                    proof {
                        assert forall|i: int| 0 <= i < middle + 1 implies (
                        #[trigger] self.items[i]).before(*cid) by {
                            if i < middle {
                                Cid::order_is_transitive(
                                    self.items[i],
                                    self.items[middle as int],
                                    *cid,
                                );
                            }
                        }
                    }
                    low = middle + 1;
                },
                Order::Equal => {
                    proof {
                        assert(self.items@[middle as int] == *cid);
                    }
                    return (true, middle);
                },
                Order::Greater => {
                    proof {
                        assert forall|i: int| middle <= i < self.items.len() implies cid.before(
                            #[trigger] self.items[i],
                        ) by {
                            if i > middle {
                                Cid::order_is_transitive(
                                    *cid,
                                    self.items[middle as int],
                                    self.items[i],
                                );
                            }
                        }
                    }
                    high = middle;
                },
            }
        }
        proof {
            if self@.contains(*cid) {
                let i = choose|i: int| 0 <= i < self.items@.len() && self.items@[i] == *cid;
                assert(self.items[i] == *cid);
                Cid::order_is_strict(*cid, *cid);
            }
        }
        (false, low)
    }

    /// Whether `cid` is a member.
    pub fn contains(&self, cid: &Cid) -> (r: bool)
        ensures
            r == self@.contains(*cid),
    {
        self.position(cid).0
    }

    /// Adds a member; says whether it was not one before.
    pub fn insert(&mut self, cid: Cid) -> (r: bool)
        ensures
            final(self)@ == old(self)@.insert(cid),
            r == !old(self)@.contains(cid),
    {
        proof {
            use_type_invariant(&*self);
        }
        let (found, at) = self.position(&cid);
        if found {
            proof {
                assert(self@ =~= self@.insert(cid));
            }
            return false;
        }
        let ghost before = self.items@;
        let mut items: Vec<Cid> = Vec::new();
        std::mem::swap(&mut items, &mut self.items);
        items.insert(at, cid);
        proof {
            let after = items@;
            assert(after == before.insert(at as int, cid));
            assert forall|i: int, j: int| 0 <= i < j < after.len() implies (
            #[trigger] after[i]).before(#[trigger] after[j]) by {
                if i < at && j > at {
                    assert(before[i].before(before[j - 1]));
                } else if i < at && j < at {
                    assert(before[i].before(before[j]));
                } else if i > at {
                    assert(before[i - 1].before(before[j - 1]));
                } else if i < at {
                    assert(before[i].before(cid));
                } else {
                    assert(cid.before(before[j - 1]));
                }
            }
            assert forall|c: Cid| after.to_set().contains(c) <==> before.to_set().insert(
                cid,
            ).contains(c) by {
                if after.to_set().contains(c) {
                    let i = choose|i: int| 0 <= i < after.len() && after[i] == c;
                    if i < at {
                        assert(before[i] == c);
                    } else if i > at {
                        assert(before[i - 1] == c);
                    }
                }
                if before.to_set().contains(c) {
                    let i = choose|i: int| 0 <= i < before.len() && before[i] == c;
                    if i < at {
                        assert(after[i] == c);
                    } else {
                        assert(after[i + 1] == c);
                    }
                }
                if c == cid {
                    assert(after[at as int] == c);
                }
            }
            assert(after.to_set() =~= before.to_set().insert(cid));
        }
        self.items = items;
        true
    }

    /// Takes a member out; says whether it was one.
    pub fn remove(&mut self, cid: &Cid) -> (r: bool)
        ensures
            final(self)@ == old(self)@.remove(*cid),
            r == old(self)@.contains(*cid),
    {
        proof {
            use_type_invariant(&*self);
        }
        let (found, at) = self.position(cid);
        if !found {
            proof {
                assert(self@ =~= self@.remove(*cid));
            }
            return false;
        }
        let ghost before = self.items@;
        let mut items: Vec<Cid> = Vec::new();
        std::mem::swap(&mut items, &mut self.items);
        items.remove(at);
        proof {
            let after = items@;
            assert(after == before.remove(at as int));
            assert forall|i: int, j: int| 0 <= i < j < after.len() implies (
            #[trigger] after[i]).before(#[trigger] after[j]) by {
                let i0 = if i < at { i } else { i + 1 };
                let j0 = if j < at { j } else { j + 1 };
                assert(before[i0].before(before[j0]));
            }
            assert forall|c: Cid| after.to_set().contains(c) <==> before.to_set().remove(
                *cid,
            ).contains(c) by {
                if after.to_set().contains(c) {
                    let i = choose|i: int| 0 <= i < after.len() && after[i] == c;
                    let i0 = if i < at { i } else { i + 1 };
                    assert(before[i0] == c);
                    if i0 < at {
                        assert(before[i0].before(before[at as int]));
                        Cid::order_is_strict(before[i0], before[at as int]);
                    } else {
                        assert(before[at as int].before(before[i0]));
                        Cid::order_is_strict(before[at as int], before[i0]);
                    }
                }
                if before.to_set().remove(*cid).contains(c) {
                    let i = choose|i: int| 0 <= i < before.len() && before[i] == c;
                    if i < at {
                        assert(after[i] == c);
                    } else {
                        assert(after[i - 1] == c);
                    }
                }
            }
            assert(after.to_set() =~= before.to_set().remove(*cid));
        }
        self.items = items;
        true
    }

    /// The number of members.
    pub fn len(&self) -> (r: usize)
        ensures
            r == self@.len(),
            self@.finite(),
    {
        proof {
            use_type_invariant(self);
            lemma_ascending_has_no_duplicates(self.items@);
            self.items@.unique_seq_to_set();
            vstd::seq_lib::seq_to_set_is_finite(self.items@);
        }
        self.items.len()
    }

    /// Whether there is no member.
    pub fn is_empty(&self) -> (r: bool)
        ensures
            r == (self@ == Set::<Cid>::empty()),
            r == (self@.len() == 0),
    {
        proof {
            if self.items.len() > 0 {
                assert(self@.contains(self.items@[0]));
            } else {
                assert(self@ =~= Set::<Cid>::empty());
            }
        }
        let n: usize = self.len();
        n == 0
    }

    /// The members in ascending order.
    pub fn to_vec(&self) -> (r: Vec<Cid>)
        ensures
            ascending(r@),
            r@.to_set() == self@,
            r@ == in_order(self@),
            r@.no_duplicates(),
    {
        proof {
            use_type_invariant(self);
            in_order_of_ascending(self.items@);
            lemma_ascending_has_no_duplicates(self.items@);
        }
        let mut out: Vec<Cid> = Vec::new();
        let mut i: usize = 0;
        while i < self.items.len()
            invariant
                i <= self.items.len(),
                out@ == self.items@.take(i as int),
            decreases self.items.len() - i,
        {
            out.push(self.items[i]);
            proof {
                assert(self.items@.take(i + 1) =~= self.items@.take(i as int).push(
                    self.items@[i as int],
                ));
            }
            i = i + 1;
        }
        proof {
            assert(self.items@.take(i as int) =~= self.items@);
        }
        out
    }

    /// Takes all members out, in ascending order.
    pub fn drain(&mut self) -> (r: Vec<Cid>)
        ensures
            final(self)@ == Set::<Cid>::empty(),
            r@ == in_order(old(self)@),
            r@.to_set() == old(self)@,
    {
        proof {
            use_type_invariant(&*self);
            in_order_of_ascending(self.items@);
        }
        let mut items: Vec<Cid> = Vec::new();
        std::mem::swap(&mut items, &mut self.items);
        proof {
            assert(self.items@.to_set() =~= Set::<Cid>::empty());
        }
        items
    }
}

impl Clone for CidSet {
    fn clone(&self) -> (r: CidSet)
        ensures
            r@ == self@,
    {
        CidSet { items: self.to_vec() }
    }
}

/// A sequence with one more CID has one more member.
pub proof fn lemma_to_set_push(s: Seq<Cid>, c: Cid)
    ensures
        s.push(c).to_set() == s.to_set().insert(c),
{
    assert forall|d: Cid| s.push(c).to_set().contains(d) <==> s.to_set().insert(c).contains(d) by {
        if s.to_set().contains(d) {
            let i = choose|i: int| 0 <= i < s.len() && s[i] == d;
            assert(s.push(c)[i] == d);
        }
        if d == c {
            assert(s.push(c)[s.len() as int] == d);
        }
    }
    assert(s.push(c).to_set() =~= s.to_set().insert(c));
}

proof fn lemma_ascending_has_no_duplicates(s: Seq<Cid>)
    requires
        ascending(s),
    ensures
        s.no_duplicates(),
{
    assert forall|i: int, j: int| 0 <= i < s.len() && 0 <= j < s.len() && i != j implies s[i]
        != s[j] by {
        if i < j {
            assert(s[i].before(s[j]));
            Cid::order_is_strict(s[i], s[j]);
        } else {
            assert(s[j].before(s[i]));
            Cid::order_is_strict(s[j], s[i]);
        }
    }
}

/// A member that is added is found, and so is each that was found before, and no other. It is said whether
/// it was new.
pub proof fn added_members_are_found(
    before: CidSet,
    after: CidSet,
    cid: Cid,
    new: bool,
    other: Cid,
    found_before: bool,
    found: bool,
)
    requires
        exists|set: &mut CidSet|
            *set == before && *final(set) == after && #[trigger] call_ensures(
                CidSet::insert,
                (set, cid),
                new,
            ),
        call_ensures(CidSet::contains, (&before, &other), found_before),
        call_ensures(CidSet::contains, (&after, &other), found),
    ensures
        found <==> found_before || other == cid,
        other == cid ==> (new <==> !found_before),
{
}

/// A member that is taken out is not found, and each other is found as before. It is said whether it was
/// one.
pub proof fn removed_members_are_not_found(
    before: CidSet,
    after: CidSet,
    cid: Cid,
    known: bool,
    other: Cid,
    found_before: bool,
    found: bool,
)
    requires
        exists|set: &mut CidSet|
            *set == before && *final(set) == after && #[trigger] call_ensures(
                CidSet::remove,
                (set, &cid),
                known,
            ),
        call_ensures(CidSet::contains, (&before, &other), found_before),
        call_ensures(CidSet::contains, (&after, &other), found),
    ensures
        found <==> found_before && other != cid,
        other == cid ==> (known <==> found_before),
{
}

/// The members of a set come out once each, in ascending order, and there are as many of them as it says.
pub proof fn members_come_out_in_order(
    set: CidSet,
    members: Vec<Cid>,
    n: usize,
    empty: bool,
    cid: Cid,
    found: bool,
)
    requires
        call_ensures(CidSet::to_vec, (&set,), members),
        call_ensures(CidSet::len, (&set,), n),
        call_ensures(CidSet::is_empty, (&set,), empty),
        call_ensures(CidSet::contains, (&set, &cid), found),
    ensures
        found <==> members@.contains(cid),
        members@.no_duplicates() && ascending(members@),
        members@.len() == n,
        empty <==> n == 0,
{
    members@.unique_seq_to_set();
    assert(members@.to_set().contains(cid) <==> set@.contains(cid));
}

/// A set of given CIDs has these as members and no others, a copy has the same members, and a set that is
/// emptied hands out what it had and has none.
pub proof fn sets_are_made_of_their_members(
    cids: &[Cid],
    set: CidSet,
    nothing: CidSet,
    copy: CidSet,
    emptied: CidSet,
    drained: Vec<Cid>,
    members: Vec<Cid>,
    cid: Cid,
)
    requires
        call_ensures(CidSet::from_slice, (cids,), set),
        call_ensures(CidSet::new, (), nothing),
        call_ensures(<CidSet as Clone>::clone, (&set,), copy),
        call_ensures(CidSet::to_vec, (&set,), members),
        exists|s: &mut CidSet|
            *s == set && *final(s) == emptied && #[trigger] call_ensures(
                CidSet::drain,
                (s,),
                drained,
            ),
    ensures
        set@.contains(cid) <==> cids@.contains(cid),
        !nothing@.contains(cid),
        copy@.contains(cid) <==> cids@.contains(cid),
        !emptied@.contains(cid),
        drained@ == members@,
{
    assert(cids@.to_set().contains(cid) <==> cids@.contains(cid));
}

} // verus!
