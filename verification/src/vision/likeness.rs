//! What similarity means, in numbers, and which example an embedding is
//! recognised by.
use super::catalog::{
    closer, dot_of, dot_to, is_ranking, norm_of, normalized, ranking, text_before, Catalog,
};
use crate::float::format::{absolute, binary32};
use crate::float::lemmas::lemma_rounded_bound;
use crate::float::nearest::lemma_common_factor;
use crate::float::Float32;
use crate::vision::nearness::lemma_compare;
use vstd::arithmetic::power2::{lemma_pow2_pos, pow2};
use vstd::prelude::*;

verus! {

// --- Similarity ---

/// The sum of the products of the first `n` pairs.
pub open spec fn pairs_total(x: Seq<int>, y: Seq<int>, n: int) -> int
    decreases n,
{
    if n <= 0 {
        0
    } else {
        pairs_total(x, y, n - 1) + x[n - 1] * y[n - 1]
    }
}

/// The elements are these whole numbers.
pub open spec fn counts(v: Seq<Float32>, x: Seq<int>) -> bool {
    &&& v.len() == x.len()
    &&& forall|i: int| #![trigger v[i]] 0 <= i < v.len() ==> v[i].exactly(x[i], 149)
}

/// Nothing on the way to the sum is past the digits that there are.
pub open spec fn fits(x: Seq<int>, y: Seq<int>) -> bool {
    forall|n: int| #![trigger pairs_total(x, y, n)]
        0 < n <= x.len() ==> -0x100_0000 < pairs_total(x, y, n) < 0x100_0000 && -0x100_0000 < x[n
            - 1] * y[n - 1] < 0x100_0000
}

/// The dot product of whole numbers is the sum of their products.
pub proof fn law_dot_is_the_sum_of_products(
    a: Seq<Float32>,
    b: Seq<Float32>,
    x: Seq<int>,
    y: Seq<int>,
)
    requires
        counts(a, x),
        counts(b, y),
        x.len() == y.len(),
        fits(x, y),
    ensures
        dot_of(a, b).exactly(pairs_total(x, y, x.len() as int), 149),
{
    lemma_dot(a, b, x, y, x.len() as int);
}

proof fn lemma_dot(a: Seq<Float32>, b: Seq<Float32>, x: Seq<int>, y: Seq<int>, n: int)
    requires
        counts(a, x),
        counts(b, y),
        x.len() == y.len(),
        fits(x, y),
        0 <= n <= x.len(),
    ensures
        dot_to(a, b, n).exactly(pairs_total(x, y, n), 149),
    decreases n,
{
    if n == 0 {
        Float32::lemma_limits();
        Float32::lemma_zero_size();
        assert(0 * pow2(149) == 0) by (nonlinear_arith);
    } else {
        lemma_dot(a, b, x, y, n - 1);
        let (p, q) = (x[n - 1], y[n - 1]);
        assert(a[n - 1].exactly(p, 149) && b[n - 1].exactly(q, 149));
        assert(-0x100_0000 < pairs_total(x, y, n) < 0x100_0000);
        Float32::law_whole_product(a[n - 1], b[n - 1], p, q, 149, 149);
        Float32::law_whole_sum(
            dot_to(a, b, n - 1),
            a[n - 1].product(b[n - 1]),
            pairs_total(x, y, n - 1),
            p * q,
            149,
        );
    }
}

/// What one vector has more than the other is left out.
pub proof fn law_surplus_is_left_out(a: Seq<Float32>, b: Seq<Float32>, more: Seq<Float32>)
    requires
        a.len() == b.len(),
    ensures
        dot_of(a + more, b) == dot_of(a, b),
        dot_of(a, b + more) == dot_of(a, b),
{
    lemma_prefix(a, b, a + more, b, a.len() as int);
    lemma_prefix(a, b, a, b + more, a.len() as int);
}

proof fn lemma_prefix(
    a: Seq<Float32>,
    b: Seq<Float32>,
    c: Seq<Float32>,
    d: Seq<Float32>,
    n: int,
)
    requires
        n <= a.len() <= c.len(),
        n <= b.len() <= d.len(),
        forall|i: int| #![trigger a[i]] 0 <= i < a.len() ==> c[i] == a[i],
        forall|i: int| #![trigger b[i]] 0 <= i < b.len() ==> d[i] == b[i],
    ensures
        dot_to(c, d, n) == dot_to(a, b, n),
    decreases n,
{
    if n > 0 {
        lemma_prefix(a, b, c, d, n - 1);
        assert(c[n - 1] == a[n - 1] && d[n - 1] == b[n - 1]);
    }
}

/// Similarity is mutual.
pub proof fn law_dot_is_symmetric(a: Seq<Float32>, b: Seq<Float32>)
    ensures
        dot_of(a, b) == dot_of(b, a),
{
    lemma_symmetric(a, b, if a.len() < b.len() { a.len() as int } else { b.len() as int });
}

proof fn lemma_symmetric(a: Seq<Float32>, b: Seq<Float32>, n: int)
    ensures
        dot_to(a, b, n) == dot_to(b, a, n),
    decreases n,
{
    if n > 0 {
        lemma_symmetric(a, b, n - 1);
        let (x, y) = (a[n - 1], b[n - 1]);
        reveal(Float32::product);
        let (p, q) = (
            binary32().magnitude(x.parts().rest),
            binary32().magnitude(y.parts().rest),
        );
        assert(p * q == q * p) by (nonlinear_arith);
    }
}

/// A vector of whole numbers and of whole length is scaled to length one: each
/// element becomes the value nearest to its share of the length.
pub proof fn law_normalized_is_of_length_one(v: Seq<Float32>, x: Seq<int>, length: int, i: int)
    requires
        v.len() == x.len(),
        forall|i: int| #![trigger v[i]] 0 <= i < v.len() ==> v[i] == Float32::nearest(x[i], 1),
        forall|i: int| #![trigger x[i]] 0 <= i < x.len() ==> -0x100_0000 < x[i] < 0x100_0000,
        fits(x, x),
        pairs_total(x, x, x.len() as int) == length * length,
        0 < length < 2048,
        0 <= i < v.len(),
    ensures
        normalized(v).len() == v.len(),
        normalized(v)[i] == Float32::nearest(x[i], length as nat),
{
    let fmt = binary32();
    let norm = norm_of(v);
    let one = pow2(149);
    lemma_counts(v, x);
    lemma_length(v, x, length);
    assert(x[i] == x[i]);
    Float32::law_integers_are_exact(x[i]);
    Float32::lemma_limits();
    Float32::lemma_constants();
    Float32::lemma_zero_size();
    lemma_rounded_bound();
    lemma_pow2_pos(149);
    let w = absolute(x[i]);
    assert(norm.units() > 0) by (nonlinear_arith)
        requires
            norm.units() == length * one,
            length > 0,
            one > 0,
    ;
    assert(norm.size() == length * one);
    assert(v[i].size() == w * one) by (nonlinear_arith)
        requires
            v[i].size() == if v[i].units() < 0 {
                -v[i].units()
            } else {
                v[i].units()
            },
            v[i].units() == x[i] * one,
            w == if x[i] < 0 {
                -x[i]
            } else {
                x[i]
            },
            one > 0,
    ;
    reveal(Float32::quotient);
    reveal(Float32::nearest);
    lemma_common_factor(fmt, w * one, length as nat, one);
    assert((w * one) * one == v[i].size() * one);
    assert(v[i].quotient(norm) == Float32::nearest(x[i], length as nat));
}

proof fn lemma_counts(v: Seq<Float32>, x: Seq<int>)
    requires
        v.len() == x.len(),
        forall|i: int| #![trigger v[i]] 0 <= i < v.len() ==> v[i] == Float32::nearest(x[i], 1),
        forall|i: int| #![trigger x[i]] 0 <= i < x.len() ==> -0x100_0000 < x[i] < 0x100_0000,
    ensures
        counts(v, x),
{
    assert forall|i: int| #![trigger v[i]] 0 <= i < v.len() implies v[i].exactly(x[i], 149) by {
        assert(-0x100_0000 < x[i] < 0x100_0000);
        Float32::law_integers_are_exact(x[i]);
    }
}

proof fn lemma_length(v: Seq<Float32>, x: Seq<int>, length: int)
    requires
        counts(v, x),
        fits(x, x),
        pairs_total(x, x, x.len() as int) == length * length,
        0 <= length < 2048,
    ensures
        norm_of(v).exactly(length, 149),
        Float32::nearest(0, 1).below(norm_of(v)) <==> length > 0,
{
    law_dot_is_the_sum_of_products(v, v, x, x);
    let c = Float32::lemma_represented(length, 149);
    assert(length * length >= 0) by (nonlinear_arith);
    Float32::law_whole_root(dot_of(v, v), c, length * length, length, 149, 149);
    Float32::law_integers_are_exact(0);
    lemma_compare(Float32::nearest(0, 1), norm_of(v), 0, length, 149);
}

/// A vector of zeros is left as it is.
pub proof fn law_zero_vector_is_left(v: Seq<Float32>)
    requires
        forall|i: int| #![trigger v[i]] 0 <= i < v.len() ==> v[i].exactly(0, 149),
    ensures
        normalized(v) == v,
{
    let x = Seq::new(v.len(), |i: int| 0int);
    assert forall|n: int| #![trigger pairs_total(x, x, n)] 0 <= n <= x.len() implies pairs_total(
        x,
        x,
        n,
    ) == 0 by {
        lemma_no_total(x, n);
    }
    lemma_length(v, x, 0);
}

proof fn lemma_no_total(x: Seq<int>, n: int)
    requires
        0 <= n <= x.len(),
        forall|i: int| #![trigger x[i]] 0 <= i < x.len() ==> x[i] == 0,
    ensures
        pairs_total(x, x, n) == 0,
    decreases n,
{
    if n > 0 {
        lemma_no_total(x, n - 1);
        assert(x[n - 1] == 0);
    }
}

// --- Recognition ---

proof fn lemma_rank(a: Float32, b: Float32)
    requires
        a.below(b),
    ensures
        a.rank() < b.rank(),
{
    Float32::lemma_limits();
}

/// There is a ranking of every list of scores.
proof fn lemma_ranked(scores: Seq<Float32>) -> (p: Seq<int>)
    ensures
        is_ranking(scores, p),
    decreases scores.len(),
{
    if scores.len() == 0 {
        Seq::empty()
    } else {
        let n = scores.len() - 1;
        let fewer = scores.drop_last();
        let p = lemma_ranked(fewer);
        let at = lemma_place(scores, p, n);
        let q = p.insert(at, n);
        assert forall|k: int, l: int| #![trigger q[k], q[l]] 0 <= k < l < q.len() implies closer(
            scores,
            q[k],
            q[l],
        ) by {
            let i = if k < at {
                k
            } else {
                k - 1
            };
            let j = if l < at {
                l
            } else {
                l - 1
            };
            if k != at {
                assert(q[k] == p[i]);
            }
            if l != at {
                assert(q[l] == p[j]);
            }
            if k != at && l != at {
                assert(closer(fewer, p[i], p[j]));
            }
        }
        assert forall|i: int| 0 <= i < scores.len() implies #[trigger] q.contains(i) by {
            if i == n {
                assert(q[at] == n);
            } else {
                assert(p.contains(i));
                let k = choose|k: int| 0 <= k < p.len() && p[k] == i;
                if k < at {
                    assert(q[k] == i);
                } else {
                    assert(q[k + 1] == i);
                }
            }
        }
        assert forall|k: int| #![trigger q[k]] 0 <= k < q.len() implies 0 <= q[k]
            < scores.len() by {
            if k < at {
                assert(q[k] == p[k]);
            } else if k > at {
                assert(q[k] == p[k - 1]);
            }
        }
        q
    }
}

/// Where the last of the scores belongs among the others.
proof fn lemma_place(scores: Seq<Float32>, p: Seq<int>, n: int) -> (at: int)
    requires
        n == scores.len() - 1,
        n >= 0,
        is_ranking(scores.drop_last(), p),
    ensures
        0 <= at <= p.len(),
        forall|k: int| #![trigger p[k]] 0 <= k < at ==> closer(scores, p[k], n),
        forall|k: int| #![trigger p[k]] at <= k < p.len() ==> closer(scores, n, p[k]),
{
    lemma_place_from(scores, p, n, 0)
}

proof fn lemma_place_from(scores: Seq<Float32>, p: Seq<int>, n: int, from: int) -> (at: int)
    requires
        n == scores.len() - 1,
        n >= 0,
        is_ranking(scores.drop_last(), p),
        0 <= from <= p.len(),
        forall|k: int| #![trigger p[k]] 0 <= k < from ==> closer(scores, p[k], n),
    ensures
        0 <= at <= p.len(),
        forall|k: int| #![trigger p[k]] 0 <= k < at ==> closer(scores, p[k], n),
        forall|k: int| #![trigger p[k]] at <= k < p.len() ==> closer(scores, n, p[k]),
    decreases p.len() - from,
{
    let fewer = scores.drop_last();
    if from == p.len() {
        from
    } else if closer(scores, p[from], n) {
        lemma_place_from(scores, p, n, from + 1)
    } else {
        assert(0 <= p[from] < n);
        assert forall|k: int| #![trigger p[k]] from <= k < p.len() implies closer(
            scores,
            n,
            p[k],
        ) by {
            if from < k {
                assert(closer(fewer, p[from], p[k]));
                assert(0 <= p[k] < n);
            }
        }
        from
    }
}

proof fn lemma_ranking(scores: Seq<Float32>)
    ensures
        is_ranking(scores, ranking(scores)),
{
    let p = lemma_ranked(scores);
}

/// The similarity of an example to what is asked for.
pub open spec fn similarity(c: Catalog, query: Seq<Float32>, i: int) -> Float32 {
    dot_of(normalized(query), c.examples@[i].embedding@)
}

/// The examples that are listed are as many as were asked for, or all there
/// are; none twice, the more similar before the less similar, those that are as
/// similar as they were taught; and none that is left out is more similar than
/// one that is listed. Listed are their classes, each with its similarity.
/// `p` tells which examples they are.
pub proof fn law_most_similar_are_listed(c: Catalog, query: Seq<Float32>, n: int) -> (p: Seq<int>)
    requires
        n >= 0,
    ensures
        p.len() == c.closest(query, n).len(),
        p.len() == if n < c.examples@.len() {
            n
        } else {
            c.examples@.len() as int
        },
        forall|k: int| #![trigger p[k]]
            0 <= k < p.len() ==> {
                &&& 0 <= p[k] < c.examples@.len()
                &&& c.closest(query, n)[k].0 == c.examples@[p[k]].class
                &&& c.closest(query, n)[k].1 == similarity(c, query, p[k])
            },
        forall|k: int, l: int| #![trigger p[k], p[l]]
            0 <= k < l < p.len() ==> {
                &&& p[k] != p[l]
                &&& !similarity(c, query, p[k]).below(similarity(c, query, p[l]))
                &&& similarity(c, query, p[k]) == similarity(c, query, p[l]) ==> p[k] < p[l]
            },
        forall|k: int, j: int| #![trigger p[k], c.examples@[j]]
            0 <= k < p.len() && 0 <= j < c.examples@.len() && !p.contains(j) ==> !similarity(
                c,
                query,
                p[k],
            ).below(similarity(c, query, j)),
{
    let scores = c.scores(query);
    let all = ranking(scores);
    let count = c.closest(query, n).len() as int;
    lemma_ranking(scores);
    let p = all.take(count);
    assert forall|k: int| #![trigger p[k]] 0 <= k < p.len() implies {
        &&& 0 <= p[k] < c.examples@.len()
        &&& scores[p[k]] == similarity(c, query, p[k])
    } by {
        assert(p[k] == all[k]);
    }
    assert forall|k: int, l: int| #![trigger p[k], p[l]] 0 <= k < l < p.len() implies {
        &&& p[k] != p[l]
        &&& !similarity(c, query, p[k]).below(similarity(c, query, p[l]))
        &&& similarity(c, query, p[k]) == similarity(c, query, p[l]) ==> p[k] < p[l]
    } by {
        assert(closer(scores, all[k], all[l]));
        if scores[all[k]].below(scores[all[l]]) {
            lemma_rank(scores[all[k]], scores[all[l]]);
        }
    }
    assert forall|k: int, j: int| #![trigger p[k], c.examples@[j]]
        0 <= k < p.len() && 0 <= j < c.examples@.len() && !p.contains(j) implies !similarity(
        c,
        query,
        p[k],
    ).below(similarity(c, query, j)) by {
        assert(all.contains(j));
        let l = choose|l: int| 0 <= l < all.len() && all[l] == j;
        if l < count {
            assert(p[l] == j);
        }
        assert(closer(scores, all[k], all[l]));
        if scores[all[k]].below(scores[j]) {
            lemma_rank(scores[all[k]], scores[j]);
        }
    }
    p
}

/// An embedding is recognised by the most similar example, the one that was
/// taught first where several are: as its class where it is similar enough, and
/// as nothing otherwise. Its similarity is told in both cases. `i` is that
/// example.
pub proof fn law_recognised_by_the_most_similar(
    c: Catalog,
    query: Seq<Float32>,
    min_similarity: Float32,
) -> (i: int)
    requires
        c.examples@.len() > 0,
    ensures
        0 <= i < c.examples@.len(),
        forall|j: int| #![trigger c.examples@[j]]
            0 <= j < c.examples@.len() ==> !similarity(c, query, i).below(similarity(c, query, j)),
        forall|j: int| #![trigger c.examples@[j]]
            0 <= j < i ==> similarity(c, query, j) != similarity(c, query, i),
        ({
            let (class, told) = c.recognised(query, min_similarity);
            &&& told == similarity(c, query, i)
            &&& class is Some <==> min_similarity.at_most(told)
            &&& class matches Some(name) ==> name == c.examples@[i].class
        }),
{
    let scores = c.scores(query);
    let all = ranking(scores);
    lemma_ranking(scores);
    let i = all[0];
    assert(0 <= i < scores.len());
    assert(c.closest(query, 1)[0] == (c.examples@[i].class, scores[i]));
    assert forall|j: int| #![trigger c.examples@[j]]
        0 <= j < c.examples@.len() implies !similarity(c, query, i).below(
        similarity(c, query, j),
    ) by {
        assert(all.contains(j));
        let l = choose|l: int| 0 <= l < all.len() && all[l] == j;
        if l > 0 {
            assert(closer(scores, all[0], all[l]));
        }
        if scores[i].below(scores[j]) {
            lemma_rank(scores[i], scores[j]);
        }
    }
    assert forall|j: int| #![trigger c.examples@[j]] 0 <= j < i implies similarity(c, query, j)
        != similarity(c, query, i) by {
        lemma_first_is_first(c, query, j);
    }
    i
}

/// No example of the same similarity was taught before the first of the list.
proof fn lemma_first_is_first(c: Catalog, query: Seq<Float32>, j: int)
    requires
        0 <= j < c.examples@.len(),
        j < ranking(c.scores(query))[0],
    ensures
        similarity(c, query, j) != similarity(c, query, ranking(c.scores(query))[0]),
{
    let scores = c.scores(query);
    let all = ranking(scores);
    lemma_ranking(scores);
    assert(all.contains(j));
    let l = choose|l: int| 0 <= l < all.len() && all[l] == j;
    assert(0 <= all[0] < scores.len());
    assert(closer(scores, all[0], all[l]));
}

/// Nothing is recognised, and nothing is similar, before anything was taught.
pub proof fn law_empty_catalog_recognises_nothing(
    c: Catalog,
    query: Seq<Float32>,
    min_similarity: Float32,
)
    requires
        c.examples@.len() == 0,
    ensures
        c.recognised(query, min_similarity).0 is None,
        c.recognised(query, min_similarity).1.exactly(0, 149),
{
    Float32::law_integers_are_exact(0);
}

// --- The order of names ---

/// Names are ordered by the first character in which they differ, and a name
/// comes before any that goes on from it.
pub proof fn law_names_are_ordered_by_their_characters(
    common: Seq<char>,
    a: Seq<char>,
    b: Seq<char>,
)
    ensures
        a.len() == 0 && b.len() > 0 ==> text_before(common + a, common + b),
        b.len() == 0 ==> !text_before(common + a, common + b),
        a.len() > 0 && b.len() > 0 && a[0] != b[0] ==> (text_before(common + a, common + b)
            <==> a[0] < b[0]),
    decreases common.len(),
{
    let (x, y) = (common + a, common + b);
    if common.len() > 0 {
        assert(x.drop_first() =~= common.drop_first() + a);
        assert(y.drop_first() =~= common.drop_first() + b);
        law_names_are_ordered_by_their_characters(common.drop_first(), a, b);
    } else {
        assert(x =~= a && y =~= b);
    }
}

} // verus!
