use crate::metrics::{is_zero_bits, law_total_order, law_zero, total_order_key};
use vstd::prelude::*;

verus! {

/// One result of the demo's flat index: an id and its distance (or similarity)
/// to the query, as an IEEE-754 single-precision pattern.
#[derive(Debug, Clone, Copy, PartialEq, Eq, Structural)]
pub struct SearchResult {
    pub id: u64,
    pub distance_bits: u32,
}

/// A single-precision pattern is a NaN: all exponent bits set and a non-zero
/// fraction.
pub open spec fn is_nan_bits(bits: u32) -> bool {
    bits & 0x7f80_0000u32 == 0x7f80_0000u32 && bits & 0x007f_ffffu32 != 0
}

/// The NaNs are exactly the patterns whose magnitude, with the sign bit
/// cleared, lies above the pattern of infinity (`0x7f80_0000`).
pub proof fn law_nan(bits: u32)
    ensures
        is_nan_bits(bits) <==> bits % 0x8000_0000 > 0x7f80_0000,
{
    assert((bits & 0x7f80_0000u32 == 0x7f80_0000u32 && bits & 0x007f_ffffu32 != 0) <==> (bits
        % 0x8000_0000 > 0x7f80_0000)) by (bit_vector);
}

/// The position of a value in numeric order, as `f32::partial_cmp` compares
/// numbers other than NaN: IEEE-754 total order, with both zeros equal.
pub open spec fn distance_key(bits: u32) -> u32 {
    if is_zero_bits(bits) {
        total_order_key(0)
    } else {
        total_order_key(bits)
    }
}

/// Which end of the numeric order ranks first.
#[derive(Debug, Clone, Copy, PartialEq, Eq, Structural)]
pub enum RankOrder {
    /// Smaller values first, as for a distance.
    SmallerFirst,
    /// Larger values first, as for a similarity.
    LargerFirst,
}

/// The rank of a value under `order`: its numeric position, reversed when larger
/// values come first. A smaller rank comes first.
pub open spec fn rank_key(order: RankOrder, bits: u32) -> u32 {
    match order {
        RankOrder::SmallerFirst => distance_key(bits),
        RankOrder::LargerFirst => (0xffff_ffffu32 - distance_key(bits)) as u32,
    }
}

/// Values rank by number: among non-negative patterns a larger pattern is a
/// larger number, among negative ones a larger pattern is a smaller number,
/// the two zeros are equal, and every negative non-zero value is below every
/// non-negative one. `SmallerFirst` ranks smaller numbers first, `LargerFirst`
/// exactly the other way round.
pub proof fn law_rank_order(a: u32, b: u32)
    ensures
        a < 0x8000_0000 && b < 0x8000_0000 ==> (distance_key(a) < distance_key(b) <==> a < b),
        a > 0x8000_0000 && b > 0x8000_0000 ==> (distance_key(a) < distance_key(b) <==> a > b),
        distance_key(0x8000_0000) == distance_key(0),
        a > 0x8000_0000 && b < 0x8000_0000 ==> distance_key(a) < distance_key(b),
        rank_key(RankOrder::SmallerFirst, a) < rank_key(RankOrder::SmallerFirst, b) <==> distance_key(
            a,
        ) < distance_key(b),
        rank_key(RankOrder::LargerFirst, a) < rank_key(RankOrder::LargerFirst, b) <==> distance_key(
            b,
        ) < distance_key(a),
{
    law_zero(a);
    law_zero(b);
    law_zero(0);
    law_zero(0x8000_0000);
    law_total_order(a, b);
    law_total_order(b, a);
    law_total_order(a, 0);
    law_total_order(0, b);
}

/// Where a stable insertion puts `x` into `s`: after the last of the trailing
/// entries that do not rank after `x`.
pub open spec fn insert_pos(order: RankOrder, s: Seq<SearchResult>, x: SearchResult) -> nat
    decreases s.len(),
{
    if s.len() == 0 {
        0
    } else if rank_key(order, s.last().distance_bits) <= rank_key(order, x.distance_bits) {
        s.len()
    } else {
        insert_pos(order, s.drop_last(), x)
    }
}

/// `s` with `x` inserted at its stable position.
pub open spec fn insert_by_rank(order: RankOrder, s: Seq<SearchResult>, x: SearchResult) -> Seq<SearchResult> {
    s.take(insert_pos(order, s, x) as int).push(x) + s.skip(insert_pos(order, s, x) as int)
}

/// The results stably sorted by rank, best first: equal values keep their
/// order.
pub open spec fn sort_by_rank(order: RankOrder, results: Seq<SearchResult>) -> Seq<SearchResult>
    decreases results.len(),
{
    if results.len() == 0 {
        Seq::empty()
    } else {
        insert_by_rank(order, sort_by_rank(order, results.drop_last()), results.last())
    }
}

/// Results in rank order, best first.
pub open spec fn sorted_by_rank(order: RankOrder, s: Seq<SearchResult>) -> bool {
    forall|a: int, b: int|
        0 <= a < b < s.len() ==> rank_key(order, #[trigger] s[a].distance_bits) <= rank_key(order, 
            #[trigger] s[b].distance_bits,
        )
}

/// The stable position never exceeds the length.
pub proof fn lemma_insert_pos_bound(order: RankOrder, s: Seq<SearchResult>, x: SearchResult)
    ensures
        insert_pos(order, s, x) <= s.len(),
    decreases s.len(),
{
    if s.len() > 0 {
        lemma_insert_pos_bound(order, s.drop_last(), x);
    }
}

/// Entries before the stable position are not farther than `x`; entries from
/// it on, in a sorted sequence, are farther.
pub proof fn lemma_insert_pos_split(order: RankOrder, s: Seq<SearchResult>, x: SearchResult)
    requires
        sorted_by_rank(order, s),
    ensures
        forall|i: int|
            0 <= i < insert_pos(order, s, x) ==> rank_key(order, #[trigger] s[i].distance_bits)
                <= rank_key(order, x.distance_bits),
        forall|i: int|
            insert_pos(order, s, x) <= i < s.len() ==> rank_key(order, #[trigger] s[i].distance_bits)
                > rank_key(order, x.distance_bits),
    decreases s.len(),
{
    lemma_insert_pos_bound(order, s, x);
    if s.len() > 0 {
        let init = s.drop_last();
        assert(sorted_by_rank(order, init)) by {
            assert forall|a: int, b: int| 0 <= a < b < init.len() implies rank_key(order, 
                #[trigger] init[a].distance_bits,
            ) <= rank_key(order, #[trigger] init[b].distance_bits) by {
                assert(init[a] == s[a] && init[b] == s[b]);
            }
        }
        lemma_insert_pos_split(order, init, x);
        lemma_insert_pos_bound(order, init, x);
        if rank_key(order, s.last().distance_bits) <= rank_key(order, x.distance_bits) {
            assert forall|i: int| 0 <= i < s.len() implies rank_key(order, 
                #[trigger] s[i].distance_bits,
            ) <= rank_key(order, x.distance_bits) by {
                if i < s.len() - 1 {
                    assert(rank_key(order, s[i].distance_bits) <= rank_key(order, 
                        s[s.len() - 1].distance_bits,
                    ));
                }
            }
        } else {
            assert forall|i: int| 0 <= i < insert_pos(order, s, x) implies rank_key(order, 
                #[trigger] s[i].distance_bits,
            ) <= rank_key(order, x.distance_bits) by {
                assert(init[i] == s[i]);
            }
            assert forall|i: int| insert_pos(order, s, x) <= i < s.len() implies rank_key(order, 
                #[trigger] s[i].distance_bits,
            ) > rank_key(order, x.distance_bits) by {
                if i < s.len() - 1 {
                    assert(init[i] == s[i]);
                }
            }
        }
    }
}

/// Sorting keeps the number of results.
pub proof fn lemma_sort_by_rank_len(order: RankOrder, results: Seq<SearchResult>)
    ensures
        sort_by_rank(order, results).len() == results.len(),
    decreases results.len(),
{
    if results.len() > 0 {
        lemma_sort_by_rank_len(order, results.drop_last());
        lemma_insert_pos_bound(order, sort_by_rank(order, results.drop_last()), results.last());
    }
}

/// The stable sort is sorted by rank and holds the same results.
pub proof fn lemma_sort_by_rank(order: RankOrder, results: Seq<SearchResult>)
    ensures
        sorted_by_rank(order, sort_by_rank(order, results)),
        sort_by_rank(order, results).to_multiset() == results.to_multiset(),
    decreases results.len(),
{
    broadcast use vstd::seq_lib::group_to_multiset_ensures;

    if results.len() > 0 {
        let init = results.drop_last();
        let x = results.last();
        lemma_sort_by_rank(order, init);
        let s = sort_by_rank(order, init);
        let p = insert_pos(order, s, x) as int;
        lemma_insert_pos_bound(order, s, x);
        lemma_insert_pos_split(order, s, x);
        let out = insert_by_rank(order, s, x);
        assert(out.len() == s.len() + 1);
        assert forall|i: int| 0 <= i < out.len() implies #[trigger] out[i] == if i < p {
            s[i]
        } else if i == p {
            x
        } else {
            s[i - 1]
        } by {}
        assert forall|a: int, b: int| 0 <= a < b < out.len() implies rank_key(order, 
            #[trigger] out[a].distance_bits,
        ) <= rank_key(order, #[trigger] out[b].distance_bits) by {
            if b < p {
            } else if b == p {
            } else if a < p {
            } else if a == p {
            } else {
            }
        }
        assert(out =~= s.take(p) + seq![x] + s.skip(p));
        assert(s =~= s.take(p) + s.skip(p));
        assert(results =~= init.push(x));
        vstd::seq_lib::lemma_multiset_commutative(s.take(p), s.skip(p));
        vstd::seq_lib::lemma_multiset_commutative(s.take(p) + seq![x], s.skip(p));
        vstd::seq_lib::lemma_multiset_commutative(s.take(p), seq![x]);
        assert(init.push(x).to_multiset() == init.to_multiset().insert(x));
        assert(seq![x].to_multiset() =~= vstd::multiset::Multiset::empty().insert(x)) by {
            assert(seq![x] =~= Seq::<SearchResult>::empty().push(x));
        }
    }
}

/// A filter keeps nothing of a sequence in which nothing meets its predicate.
proof fn lemma_filter_none(s: Seq<SearchResult>, pred: spec_fn(SearchResult) -> bool)
    requires
        forall|i: int| 0 <= i < s.len() ==> !pred(#[trigger] s[i]),
    ensures
        s.filter(pred) =~= Seq::<SearchResult>::empty(),
    decreases s.len(),
{
    reveal(Seq::filter);
    if s.len() > 0 {
        lemma_filter_none(s.drop_last(), pred);
    }
}

/// Sorting is stable: the results of any one rank come out in the order they
/// went in.
pub proof fn law_sort_stable(order: RankOrder, results: Seq<SearchResult>, key: u32)
    ensures
        sort_by_rank(order, results).filter(|y: SearchResult| rank_key(order, y.distance_bits) == key)
            == results.filter(|y: SearchResult| rank_key(order, y.distance_bits) == key),
    decreases results.len(),
{
    let pred = |y: SearchResult| rank_key(order, y.distance_bits) == key;
    reveal(Seq::filter);
    if results.len() > 0 {
        let init = results.drop_last();
        let x = results.last();
        law_sort_stable(order, init, key);
        lemma_sort_by_rank(order, init);
        let s = sort_by_rank(order, init);
        let p = insert_pos(order, s, x) as int;
        lemma_insert_pos_bound(order, s, x);
        lemma_insert_pos_split(order, s, x);
        let out = sort_by_rank(order, results);
        assert(out =~= s.take(p) + seq![x] + s.skip(p));
        assert(s =~= s.take(p) + s.skip(p));
        Seq::filter_distributes_over_add(s.take(p) + seq![x], s.skip(p), pred);
        Seq::filter_distributes_over_add(s.take(p), seq![x], pred);
        Seq::filter_distributes_over_add(s.take(p), s.skip(p), pred);
        assert(seq![x].drop_last() =~= Seq::<SearchResult>::empty());
        assert(seq![x].last() == x);
        if pred(x) {
            assert forall|i: int| 0 <= i < s.skip(p).len() implies !pred(#[trigger] s.skip(p)[i]) by {
                assert(s.skip(p)[i] == s[p + i]);
            }
            lemma_filter_none(s.skip(p), pred);
            assert(seq![x].filter(pred) =~= seq![x]);
        } else {
            lemma_filter_none(seq![x], pred);
        }
    }
}

/// The best results first, stably sorted by value under `order`, and at most
/// `k` of them.
///
/// Values are compared numerically; a NaN has no order, so with two or more
/// results none may be NaN.
pub fn best_first(results: Vec<SearchResult>, order: RankOrder, k: usize) -> (best: Vec<SearchResult>)
    requires
        results@.len() >= 2 ==> forall|i: int|
            0 <= i < results@.len() ==> !is_nan_bits(#[trigger] results@[i].distance_bits),
    ensures
        best@ == sort_by_rank(order, results@).take(
            if k < results@.len() {
                k as int
            } else {
                results@.len() as int
            },
        ),
        sorted_by_rank(order, best@),
        sorted_by_rank(order, sort_by_rank(order, results@)),
        sort_by_rank(order, results@).to_multiset() == results@.to_multiset(),
{
    let n = results.len();
    let mut sorted: Vec<SearchResult> = Vec::new();
    let mut i: usize = 0;
    while i < n
        invariant
            n == results@.len(),
            0 <= i <= n,
            sorted@ == sort_by_rank(order, results@.take(i as int)),
        decreases n - i,
    {
        let x = results[i];
        let key_x = rank_position(order, x.distance_bits);
        let ghost s = sorted@;
        let mut p: usize = sorted.len();
        assert(s.take(p as int) =~= s);
        while p > 0 && rank_position(order, sorted[p - 1].distance_bits) > key_x
            invariant
                sorted@ == s,
                0 <= p <= s.len(),
                key_x == rank_key(order, x.distance_bits),
                insert_pos(order, s, x) == insert_pos(order, s.take(p as int), x),
            decreases p,
        {
            proof {
                assert(s.take(p as int).drop_last() =~= s.take(p - 1));
            }
            p = p - 1;
        }
        proof {
            if p > 0 {
                assert(s.take(p as int).last() == s[p - 1]);
            }
            assert(insert_pos(order, s.take(p as int), x) == p);
        }
        sorted.insert(p, x);
        proof {
            let next = results@.take(i + 1);
            assert(next.drop_last() =~= results@.take(i as int));
            assert(next.last() == x);
            assert(sorted@ =~= insert_by_rank(order, s, x));
        }
        i = i + 1;
    }
    proof {
        assert(results@.take(n as int) =~= results@);
        lemma_sort_by_rank_len(order, results@);
        lemma_sort_by_rank(order, results@);
    }
    if k < sorted.len() {
        sorted.truncate(k);
    }
    proof {
        let all = sort_by_rank(order, results@);
        assert forall|a: int, b: int| 0 <= a < b < sorted@.len() implies rank_key(
            order,
            #[trigger] sorted@[a].distance_bits,
        ) <= rank_key(order, #[trigger] sorted@[b].distance_bits) by {
            assert(sorted@[a] == all[a] && sorted@[b] == all[b]);
        }
    }
    sorted
}

/// The rank of a value under `order`.
fn rank_position(order: RankOrder, bits: u32) -> (key: u32)
    ensures
        key == rank_key(order, bits),
{
    let numeric = if bits & 0x7fff_ffffu32 == 0 {
        0x8000_0000u32
    } else if bits >= 0x8000_0000u32 {
        0xffff_ffffu32 - bits
    } else {
        bits + 0x8000_0000u32
    };
    match order {
        RankOrder::SmallerFirst => numeric,
        RankOrder::LargerFirst => 0xffff_ffffu32 - numeric,
    }
}

} // verus!
