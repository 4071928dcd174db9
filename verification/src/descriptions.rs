//! What the short description of a receiver state tells.

use crate::bloom::{bloom_bits, bloom_hashes};
use crate::receiver_state::{bloom_text, decimal, decimals_are_read_back, ReceiverState};
use deterministic_bloom::runtime_size::BloomFilter;
use vstd::prelude::*;

verus! {

/// Whether two states have as many CIDs and bits as each other, and as many hash functions.
pub open spec fn same_counts(a: ReceiverState, b: ReceiverState) -> bool {
    &&& a.missing_subgraph_roots@.len() == b.missing_subgraph_roots@.len()
    &&& a.skip_subgraph_roots@.len() == b.skip_subgraph_roots@.len()
    &&& match (a.have_cids_bloom, b.have_cids_bloom) {
        (Some(a), Some(b)) => bloom_hashes(a) == bloom_hashes(b) && bloom_bits(a).len()
            == bloom_bits(b).len(),
        (None, None) => true,
        _ => false,
    }
}

spec fn is_digit(c: char) -> bool {
    48 <= c as nat <= 57
}

proof fn lemma_decimals_are_digits(n: nat, i: int)
    requires
        0 <= i < decimal(n).len(),
    ensures
        is_digit(decimal(n)[i]),
    decreases n,
{
    if n >= 10 && i < decimal(n).len() - 1 {
        lemma_decimals_are_digits(n / 10, i);
        assert(decimal(n)[i] == decimal(n / 10)[i]);
    }
}

/// A number ends where something else than a digit follows.
proof fn lemma_numbers_end(m: nat, n: nat, x: Seq<char>, y: Seq<char>)
    requires
        x.len() > 0,
        y.len() > 0,
        !is_digit(x[0]),
        !is_digit(y[0]),
        decimal(m) + x == decimal(n) + y,
    ensures
        m == n,
        x == y,
{
    let (d, e) = (decimal(m), decimal(n));
    if d.len() < e.len() {
        assert((d + x)[d.len() as int] == x[0]);
        assert((e + y)[d.len() as int] == e[d.len() as int]);
        lemma_decimals_are_digits(n, d.len() as int);
    }
    if e.len() < d.len() {
        assert((e + y)[e.len() as int] == y[0]);
        assert((d + x)[e.len() as int] == d[e.len() as int]);
        lemma_decimals_are_digits(m, e.len() as int);
    }
    assert(d =~= (d + x).take(d.len() as int));
    assert(e =~= (e + y).take(e.len() as int));
    assert(x =~= (d + x).skip(d.len() as int));
    assert(y =~= (e + y).skip(e.len() as int));
    decimals_are_read_back(m);
    decimals_are_read_back(n);
}

proof fn lemma_same_start(start: Seq<char>, x: Seq<char>, y: Seq<char>)
    requires
        start + x == start + y,
    ensures
        x == y,
{
    assert(x =~= (start + x).skip(start.len() as int));
    assert(y =~= (start + y).skip(start.len() as int));
}

proof fn lemma_blooms_are_told(
    a: Option<BloomFilter>,
    b: Option<BloomFilter>,
    x: Seq<char>,
    y: Seq<char>,
)
    requires
        bloom_text(a) + x == bloom_text(b) + y,
    ensures
        x == y,
        a is Some == b is Some,
        a is Some ==> bloom_hashes(a->0) == bloom_hashes(b->0) && bloom_bits(a->0).len()
            == bloom_bits(b->0).len(),
{
    reveal_strlit("\"Some(BloomFilter(k_hashes = ");
    reveal_strlit(", ");
    reveal_strlit(" bytes))\"");
    reveal_strlit("\"None\"");
    let start = "\"Some(BloomFilter(k_hashes = "@;
    let comma = ", "@;
    let end = " bytes))\""@;
    match (a, b) {
        (Some(a), Some(b)) => {
            let x2 = end + x;
            let y2 = end + y;
            let x1 = comma + (decimal(bloom_bits(a).len()) + x2);
            let y1 = comma + (decimal(bloom_bits(b).len()) + y2);
            assert(bloom_text(Some(a)) + x =~= start + (decimal(bloom_hashes(a)) + x1));
            assert(bloom_text(Some(b)) + y =~= start + (decimal(bloom_hashes(b)) + y1));
            lemma_same_start(start, decimal(bloom_hashes(a)) + x1, decimal(bloom_hashes(b)) + y1);
            lemma_numbers_end(bloom_hashes(a), bloom_hashes(b), x1, y1);
            lemma_same_start(
                comma,
                decimal(bloom_bits(a).len()) + x2,
                decimal(bloom_bits(b).len()) + y2,
            );
            lemma_numbers_end(bloom_bits(a).len(), bloom_bits(b).len(), x2, y2);
            lemma_same_start(end, x, y);
        },
        (None, None) => {
            lemma_same_start("\"None\""@, x, y);
        },
        (Some(a), None) => {
            assert((bloom_text(Some(a)) + x)[1] == 'S');
            assert((bloom_text(None) + y)[1] == 'N');
        },
        (None, Some(b)) => {
            assert((bloom_text(None) + x)[1] == 'N');
            assert((bloom_text(Some(b)) + y)[1] == 'S');
        },
    }
}

proof fn lemma_regrouped(
    a: Seq<char>,
    b: Seq<char>,
    c: Seq<char>,
    d: Seq<char>,
    e: Seq<char>,
    f: Seq<char>,
    g: Seq<char>,
)
    ensures
        a + b + c + d + e + f + g == a + (b + (c + (d + (e + (f + g))))),
{
    assert(a + b + c + d + e + f + g =~= a + (b + (c + (d + (e + (f + g))))));
}

/// The description of a state with the given texts around the counts.
spec fn description_with(
    state: ReceiverState,
    first: Seq<char>,
    second: Seq<char>,
    third: Seq<char>,
    end: Seq<char>,
) -> Seq<char> {
    first + decimal(state.missing_subgraph_roots@.len()) + second + bloom_text(
        state.have_cids_bloom,
    ) + third + decimal(state.skip_subgraph_roots@.len()) + end
}

proof fn lemma_counts_are_told(
    a: ReceiverState,
    b: ReceiverState,
    first: Seq<char>,
    second: Seq<char>,
    third: Seq<char>,
    end: Seq<char>,
)
    requires
        description_with(a, first, second, third, end) == description_with(
            b,
            first,
            second,
            third,
            end,
        ),
        second.len() > 0,
        !is_digit(second[0]),
        end.len() > 0,
        !is_digit(end[0]),
    ensures
        same_counts(a, b),
{
    let (m, n) = (a.missing_subgraph_roots@.len(), b.missing_subgraph_roots@.len());
    let (j, k) = (a.skip_subgraph_roots@.len(), b.skip_subgraph_roots@.len());
    let (c, d) = (bloom_text(a.have_cids_bloom), bloom_text(b.have_cids_bloom));
    lemma_regrouped(first, decimal(m), second, c, third, decimal(j), end);
    lemma_regrouped(first, decimal(n), second, d, third, decimal(k), end);
    let x3 = third + (decimal(j) + end);
    let y3 = third + (decimal(k) + end);
    lemma_same_start(
        first,
        decimal(m) + (second + (c + x3)),
        decimal(n) + (second + (d + y3)),
    );
    assert((second + (c + x3))[0] == second[0]);
    assert((second + (d + y3))[0] == second[0]);
    lemma_numbers_end(m, n, second + (c + x3), second + (d + y3));
    lemma_same_start(second, c + x3, d + y3);
    lemma_blooms_are_told(a.have_cids_bloom, b.have_cids_bloom, x3, y3);
    lemma_same_start(third, decimal(j) + end, decimal(k) + end);
    lemma_numbers_end(j, k, end, end);
}

/// The description of a state tells how many CIDs there are of either kind, whether there is a bloom filter,
/// and how many hash functions and bytes it has, and nothing else.
pub proof fn descriptions_tell_the_counts(
    a: ReceiverState,
    b: ReceiverState,
    alternate: bool,
    description: String,
    other: String,
)
    requires
        call_ensures(ReceiverState::to_debug_string, (&a, alternate), description),
        call_ensures(ReceiverState::to_debug_string, (&b, alternate), other),
    ensures
        description@ == other@ <==> same_counts(a, b),
{
    if description@ == other@ {
        if alternate {
            reveal_strlit(",\n    have_cids_bloom: ");
            reveal_strlit(",\n}");
            lemma_counts_are_told(
                a,
                b,
                "ReceiverState {\n    missing_subgraph_roots.len() == : "@,
                ",\n    have_cids_bloom: "@,
                ",\n    skip_subgraph_roots.len() == : "@,
                ",\n}"@,
            );
        } else {
            reveal_strlit(", have_cids_bloom: ");
            reveal_strlit(" }");
            lemma_counts_are_told(
                a,
                b,
                "ReceiverState { missing_subgraph_roots.len() == : "@,
                ", have_cids_bloom: "@,
                ", skip_subgraph_roots.len() == : "@,
                " }"@,
            );
        }
    }
}

/// Whether a text starts with another one.
pub open spec fn starts_with(text: Seq<char>, start: Seq<char>) -> bool {
    start.len() <= text.len() && text.take(start.len() as int) == start
}

/// Whether a text ends with another one.
pub open spec fn ends_with(text: Seq<char>, end: Seq<char>) -> bool {
    end.len() <= text.len() && text.skip(text.len() - end.len()) == end
}

/// The number of roots comes first in a description, and the number of skip roots comes last.
pub proof fn descriptions_are_in_order(state: ReceiverState, description: String, lines: String)
    requires
        call_ensures(ReceiverState::to_debug_string, (&state, false), description),
        call_ensures(ReceiverState::to_debug_string, (&state, true), lines),
    ensures
        starts_with(
            description@,
            "ReceiverState { missing_subgraph_roots.len() == : "@ + decimal(
                state.missing_subgraph_roots@.len(),
            ),
        ),
        ends_with(
            description@,
            ", skip_subgraph_roots.len() == : "@ + decimal(state.skip_subgraph_roots@.len())
                + " }"@,
        ),
        starts_with(
            lines@,
            "ReceiverState {\n    missing_subgraph_roots.len() == : "@ + decimal(
                state.missing_subgraph_roots@.len(),
            ),
        ),
        ends_with(
            lines@,
            ",\n    skip_subgraph_roots.len() == : "@ + decimal(state.skip_subgraph_roots@.len())
                + ",\n}"@,
        ),
{
    let start = "ReceiverState { missing_subgraph_roots.len() == : "@ + decimal(
        state.missing_subgraph_roots@.len(),
    );
    let end = ", skip_subgraph_roots.len() == : "@ + decimal(state.skip_subgraph_roots@.len())
        + " }"@;
    assert(description@.take(start.len() as int) =~= start);
    assert(description@.skip(description@.len() - end.len()) =~= end);
    let start = "ReceiverState {\n    missing_subgraph_roots.len() == : "@ + decimal(
        state.missing_subgraph_roots@.len(),
    );
    let end = ",\n    skip_subgraph_roots.len() == : "@ + decimal(
        state.skip_subgraph_roots@.len(),
    ) + ",\n}"@;
    assert(lines@.take(start.len() as int) =~= start);
    assert(lines@.skip(lines@.len() - end.len()) =~= end);
}

} // verus!
