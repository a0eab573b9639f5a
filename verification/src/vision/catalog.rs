//! The object catalogue: labelled example embeddings, and recognition by
//! nearest-neighbour cosine similarity.
use super::ClassName;
use crate::float::Float32;
use crate::text::same_text;
use vstd::prelude::*;

verus! {

/// One labelled example. Embeddings are stored L2-normalised so similarity is
/// a plain dot product.
#[derive(Debug)]
pub struct Example {
    pub class: ClassName,
    pub embedding: Vec<Float32>,
}

/// The portable "learned file". Deliberately bin-agnostic: recognition only.
#[derive(Debug)]
pub struct Catalog {
    pub examples: Vec<Example>,
}

/// The products of the first `n` elements, added up from the left.
pub open spec fn dot_to(a: Seq<Float32>, b: Seq<Float32>, n: int) -> Float32
    decreases n,
{
    if n <= 0 {
        Float32 { bits: 0x8000_0000 }
    } else {
        dot_to(a, b, n - 1).sum(a[n - 1].product(b[n - 1]))
    }
}

/// Dot product over the length of the shorter one.
pub open spec fn dot_of(a: Seq<Float32>, b: Seq<Float32>) -> Float32 {
    dot_to(a, b, if a.len() < b.len() { a.len() as int } else { b.len() as int })
}

/// The Euclidean norm.
pub open spec fn norm_of(v: Seq<Float32>) -> Float32 {
    dot_of(v, v).root()
}

/// The vector scaled to norm one; itself where its norm is not above zero.
pub open spec fn normalized(v: Seq<Float32>) -> Seq<Float32> {
    let norm = norm_of(v);
    if Float32::nearest(0, 1).below(norm) {
        v.map_values(|x: Float32| x.quotient(norm))
    } else {
        v
    }
}

/// Dot product of two vectors. Mismatched lengths only arise from mixing
/// embedders; the surplus is left out.
pub fn dot(a: &[Float32], b: &[Float32]) -> (r: Float32)
    ensures
        r == dot_of(a@, b@),
{
    let n: usize = if a.len() < b.len() {
        a.len()
    } else {
        b.len()
    };
    let mut total = Float32 { bits: 0x8000_0000 };
    let mut i: usize = 0;
    while i < n
        invariant
            i <= n <= a@.len(),
            n <= b@.len(),
            total == dot_to(a@, b@, i as int),
        decreases n - i,
    {
        total = total.plus(a[i].times(b[i]));
        i = i + 1;
    }
    total
}

/// L2-normalise a vector; a zero vector is returned unchanged (its similarity
/// to anything is 0, which classification treats as unrecognised).
pub fn normalize(v: &[Float32]) -> (r: Vec<Float32>)
    ensures
        r@ == normalized(v@),
{
    let norm = dot(v, v).sqrt();
    let scale: bool = Float32::of(0).lt(norm);
    let mut r: Vec<Float32> = Vec::new();
    let mut i: usize = 0;
    while i < v.len()
        invariant
            i <= v@.len(),
            norm == norm_of(v@),
            scale == Float32::nearest(0, 1).below(norm),
            r@.len() == i,
            forall|j: int| #![trigger r@[j]]
                0 <= j < i ==> r@[j] == if scale {
                    v@[j].quotient(norm)
                } else {
                    v@[j]
                },
        decreases v@.len() - i,
    {
        if scale {
            r.push(v[i].over(norm));
        } else {
            r.push(v[i]);
        }
        i = i + 1;
    }
    assert(r@ =~= normalized(v@));
    r
}

/// Example `i` is listed before example `j`: more similar, or as similar and
/// taught earlier.
pub open spec fn closer(scores: Seq<Float32>, i: int, j: int) -> bool {
    scores[i].rank() > scores[j].rank() || (scores[i].rank() == scores[j].rank() && i < j)
}

/// `p` lists all the examples, the closest first.
pub open spec fn is_ranking(scores: Seq<Float32>, p: Seq<int>) -> bool {
    &&& p.len() == scores.len()
    &&& forall|k: int| #![trigger p[k]] 0 <= k < p.len() ==> 0 <= p[k] < scores.len()
    &&& forall|k: int, l: int| #![trigger p[k], p[l]]
        0 <= k < l < p.len() ==> closer(scores, p[k], p[l])
    &&& forall|i: int| 0 <= i < scores.len() ==> #[trigger] p.contains(i)
}

pub open spec fn ranking(scores: Seq<Float32>) -> Seq<int> {
    choose|p: Seq<int>| is_ranking(scores, p)
}

proof fn lemma_rankings_agree(scores: Seq<Float32>, p: Seq<int>, q: Seq<int>, n: int)
    requires
        is_ranking(scores, p),
        is_ranking(scores, q),
        0 <= n <= p.len(),
    ensures
        forall|k: int| #![trigger p[k]] 0 <= k < n ==> p[k] == q[k],
    decreases n,
{
    if n > 0 {
        lemma_rankings_agree(scores, p, q, n - 1);
        let x = p[n - 1];
        let y = q[n - 1];
        if x != y {
            assert(q.contains(x));
            assert(p.contains(y));
            let j = choose|j: int| 0 <= j < q.len() && q[j] == x;
            let i = choose|i: int| 0 <= i < p.len() && p[i] == y;
            if j < n - 1 {
                assert(p[j] == q[j]);
                assert(closer(scores, p[j], p[n - 1]));
            } else {
                assert(closer(scores, q[n - 1], q[j]));
            }
            if i < n - 1 {
                assert(p[i] == q[i]);
                assert(closer(scores, q[i], q[n - 1]));
            } else {
                assert(closer(scores, p[n - 1], p[i]));
            }
        }
    }
}

/// There is only one ranking.
pub proof fn law_one_ranking(scores: Seq<Float32>, p: Seq<int>, q: Seq<int>)
    requires
        is_ranking(scores, p),
        is_ranking(scores, q),
    ensures
        p == q,
{
    lemma_rankings_agree(scores, p, q, p.len() as int);
    assert(p =~= q);
}

/// `a` comes before `b` in the order of their characters.
pub open spec fn text_before(a: Seq<char>, b: Seq<char>) -> bool
    decreases b.len(),
{
    if b.len() == 0 {
        false
    } else if a.len() == 0 {
        true
    } else {
        a[0] < b[0] || (a[0] == b[0] && text_before(a.drop_first(), b.drop_first()))
    }
}

proof fn lemma_text_total(a: Seq<char>, b: Seq<char>)
    ensures
        text_before(a, b) || text_before(b, a) || a == b,
        !(text_before(a, b) && text_before(b, a)),
    decreases a.len() + b.len(),
{
    if a.len() > 0 && b.len() > 0 {
        lemma_text_total(a.drop_first(), b.drop_first());
        if a[0] == b[0] && a.drop_first() == b.drop_first() {
            assert(a =~= seq![a[0]] + a.drop_first());
            assert(b =~= seq![b[0]] + b.drop_first());
        }
    }
    if a.len() == 0 && b.len() == 0 {
        assert(a =~= b);
    }
}

proof fn lemma_text_transitive(a: Seq<char>, b: Seq<char>, c: Seq<char>)
    requires
        text_before(a, b),
        text_before(b, c),
    ensures
        text_before(a, c),
    decreases c.len(),
{
    if a.len() > 0 && b.len() > 0 && a[0] == b[0] && b[0] == c[0] {
        lemma_text_transitive(a.drop_first(), b.drop_first(), c.drop_first());
    }
}

/// Whether `a` comes before `b`.
fn comes_before(a: &str, b: &str) -> (r: bool)
    ensures
        r == text_before(a@, b@),
{
    let n: usize = a.unicode_len();
    let m: usize = b.unicode_len();
    let mut i: usize = 0;
    assert(a@.skip(0) =~= a@);
    assert(b@.skip(0) =~= b@);
    while i < n && i < m
        invariant
            i <= n == a@.len(),
            i <= m == b@.len(),
            text_before(a@, b@) == text_before(a@.skip(i as int), b@.skip(i as int)),
        decreases n - i,
    {
        let x: char = a.get_char(i);
        let y: char = b.get_char(i);
        proof {
            assert(a@.skip(i as int)[0] == x);
            assert(b@.skip(i as int)[0] == y);
            assert(a@.skip(i as int).drop_first() =~= a@.skip(i + 1));
            assert(b@.skip(i as int).drop_first() =~= b@.skip(i + 1));
        }
        if x < y {
            return true;
        }
        if x != y {
            return false;
        }
        i = i + 1;
    }
    i < m
}

/// The names stand in order, each once.
pub open spec fn sorted_names(names: Seq<ClassName>) -> bool {
    forall|i: int, j: int| #![trigger names[i], names[j]]
        0 <= i < j < names.len() ==> text_before(names[i]@, names[j]@)
}

pub open spec fn names_hold(names: Seq<ClassName>, name: Seq<char>) -> bool {
    exists|i: int| #![trigger names[i]] 0 <= i < names.len() && names[i]@ == name
}

pub open spec fn taught(examples: Seq<Example>, name: Seq<char>) -> bool {
    exists|i: int| #![trigger examples[i]] 0 <= i < examples.len() && examples[i].class@ == name
}

proof fn lemma_names_agree(a: Seq<ClassName>, b: Seq<ClassName>, n: int)
    requires
        sorted_names(a),
        sorted_names(b),
        forall|c: Seq<char>| #[trigger] names_hold(a, c) <==> names_hold(b, c),
        0 <= n <= a.len(),
        n <= b.len(),
    ensures
        forall|k: int| #![trigger a[k]] 0 <= k < n ==> a[k]@ == b[k]@,
    decreases n,
{
    if n > 0 {
        lemma_names_agree(a, b, n - 1);
        let x = a[n - 1]@;
        let y = b[n - 1]@;
        if x != y {
            assert(names_hold(a, x));
            assert(names_hold(b, y));
            assert(names_hold(a, y));
            let j = choose|j: int| #![trigger b[j]] 0 <= j < b.len() && b[j]@ == x;
            let i = choose|i: int| #![trigger a[i]] 0 <= i < a.len() && a[i]@ == y;
            lemma_text_total(x, y);
            lemma_text_total(x, x);
            lemma_text_total(y, y);
            if j < n - 1 {
                assert(a[j]@ == x);
            } else {
                assert(text_before(b[n - 1]@, b[j]@));
            }
            if i < n - 1 {
                assert(b[i]@ == y);
            } else {
                assert(text_before(a[n - 1]@, a[i]@));
            }
        }
    }
}

/// There is only one sorted list of the same names.
pub proof fn law_one_sorted_list(a: Seq<ClassName>, b: Seq<ClassName>)
    requires
        sorted_names(a),
        sorted_names(b),
        forall|c: Seq<char>| #[trigger] names_hold(a, c) <==> names_hold(b, c),
    ensures
        a.len() == b.len(),
        forall|k: int| #![trigger a[k]] 0 <= k < a.len() ==> a[k]@ == b[k]@,
{
    let n = if a.len() < b.len() { a.len() as int } else { b.len() as int };
    lemma_names_agree(a, b, n);
    if n < a.len() {
        assert(names_hold(a, a[n]@));
        let i = choose|i: int| #![trigger b[i]] 0 <= i < b.len() && b[i]@ == a[n]@;
        assert(a[i]@ == b[i]@);
        assert(text_before(a[i]@, a[n]@));
        lemma_text_total(a[n]@, a[n]@);
    }
    if n < b.len() {
        assert(names_hold(b, b[n]@));
        assert(names_hold(a, b[n]@));
        let i = choose|i: int| #![trigger a[i]] 0 <= i < a.len() && a[i]@ == b[n]@;
        assert(a[i]@ == b[i]@);
        assert(text_before(b[i]@, b[n]@));
        lemma_text_total(b[n]@, b[n]@);
    }
}

/// Puts a name where it belongs, unless it is there.
fn insert_name(names: &mut Vec<ClassName>, name: &ClassName)
    requires
        sorted_names(old(names)@),
    ensures
        sorted_names(final(names)@),
        forall|c: Seq<char>| #[trigger]
            names_hold(final(names)@, c) <==> names_hold(old(names)@, c) || c == name@,
{
    let ghost before = names@;
    let mut at: usize = 0;
    while at < names.len() && comes_before(names[at].as_str(), name.as_str())
        invariant
            at <= names.len(),
            names@ == before,
            sorted_names(before),
            forall|j: int| #![trigger before[j]] 0 <= j < at ==> text_before(before[j]@, name@),
        decreases names.len() - at,
    {
        at = at + 1;
    }
    if at < names.len() && same_text(names[at].as_str(), name.as_str()) {
        assert forall|c: Seq<char>| #[trigger] names_hold(names@, c) <==> names_hold(before, c) || c
            == name@ by {
            assert(names@[at as int]@ == name@);
        }
        return;
    }
    names.insert(at, name.clone());
    proof {
        let after = names@;
        assert(after == before.insert(at as int, *name));
        assert forall|j: int| #![trigger before[j]] at <= j < before.len() implies text_before(
            name@,
            before[j]@,
        ) by {
            lemma_text_total(before[at as int]@, name@);
            if at < j {
                assert(text_before(before[at as int]@, before[j]@));
                lemma_text_transitive(name@, before[at as int]@, before[j]@);
            }
        }
        assert forall|i: int, j: int| #![trigger after[i], after[j]]
            0 <= i < j < after.len() implies text_before(after[i]@, after[j]@) by {
            if j < at {
                assert(after[i] == before[i] && after[j] == before[j]);
            } else if j == at {
                assert(after[i] == before[i]);
            } else if i < at {
                assert(after[i] == before[i] && after[j] == before[j - 1]);
            } else if i == at {
                assert(after[j] == before[j - 1]);
            } else {
                assert(after[i] == before[i - 1] && after[j] == before[j - 1]);
            }
        }
        assert forall|c: Seq<char>| #[trigger] names_hold(after, c) <==> names_hold(before, c) || c
            == name@ by {
            if names_hold(before, c) {
                let i = choose|i: int| #![trigger before[i]] 0 <= i < before.len() && before[i]@
                    == c;
                if i < at {
                    assert(after[i] == before[i]);
                } else {
                    assert(after[i + 1] == before[i]);
                }
            }
            if c == name@ {
                assert(after[at as int]@ == c);
            }
            if names_hold(after, c) {
                let i = choose|i: int| #![trigger after[i]] 0 <= i < after.len() && after[i]@ == c;
                if i < at {
                    assert(after[i] == before[i]);
                } else if i > at {
                    assert(after[i] == before[i - 1]);
                }
            }
        }
    }
}

impl Catalog {
    pub open spec fn scores(self, query: Seq<Float32>) -> Seq<Float32> {
        self.examples@.map_values(
            |e: Example| dot_of(normalized(query), e.embedding@),
        )
    }

    /// The `n` most similar examples, most similar first.
    pub open spec fn closest(self, query: Seq<Float32>, n: int) -> Seq<(ClassName, Float32)> {
        let scores = self.scores(query);
        let count = if n < self.examples@.len() { n as nat } else { self.examples@.len() };
        Seq::new(
            count,
            |k: int|
                (
                    self.examples@[ranking(scores)[k]].class,
                    scores[ranking(scores)[k]],
                ),
        )
    }

    /// What an embedding is recognised as, and how similar the closest example
    /// is.
    pub open spec fn recognised(
        self,
        query: Seq<Float32>,
        min_similarity: Float32,
    ) -> (Option<ClassName>, Float32) {
        if self.examples@.len() == 0 {
            (None, Float32::nearest(0, 1))
        } else {
            let (class, similarity) = self.closest(query, 1)[0];
            if min_similarity.at_most(similarity) {
                (Some(class), similarity)
            } else {
                (None, similarity)
            }
        }
    }

    pub fn new() -> (r: Catalog)
        ensures
            r.examples@.len() == 0,
    {
        Catalog { examples: Vec::new() }
    }

    pub fn len(&self) -> (r: usize)
        ensures
            r == self.examples@.len(),
    {
        self.examples.len()
    }

    pub fn is_empty(&self) -> (r: bool)
        ensures
            r == (self.examples@.len() == 0),
    {
        self.examples.len() == 0
    }

    /// Distinct class names, sorted.
    pub fn classes(&self) -> (r: Vec<ClassName>)
        ensures
            sorted_names(r@),
            forall|c: Seq<char>| #[trigger] names_hold(r@, c) <==> taught(self.examples@, c),
    {
        let mut r: Vec<ClassName> = Vec::new();
        let mut i: usize = 0;
        while i < self.examples.len()
            invariant
                i <= self.examples.len(),
                sorted_names(r@),
                forall|c: Seq<char>| #[trigger]
                    names_hold(r@, c) <==> taught(self.examples@.take(i as int), c),
            decreases self.examples.len() - i,
        {
            let ghost before = r@;
            insert_name(&mut r, &self.examples[i].class);
            proof {
                let prefix = self.examples@.take(i as int);
                let longer = self.examples@.take(i + 1);
                assert forall|c: Seq<char>| #[trigger] names_hold(r@, c) <==> taught(longer, c) by {
                    if taught(prefix, c) {
                        let j = choose|j: int| #![trigger prefix[j]]
                            0 <= j < prefix.len() && prefix[j].class@ == c;
                        assert(longer[j].class@ == c);
                    }
                    if c == self.examples@[i as int].class@ {
                        assert(longer[i as int].class@ == c);
                    }
                    if taught(longer, c) {
                        let j = choose|j: int| #![trigger longer[j]]
                            0 <= j < longer.len() && longer[j].class@ == c;
                        if j < i {
                            assert(prefix[j].class@ == c);
                        }
                    }
                    assert(names_hold(before, c) <==> taught(prefix, c));
                }
            }
            i = i + 1;
        }
        assert(self.examples@.take(i as int) =~= self.examples@);
        r
    }

    /// Teach one example. The embedding is stored L2-normalised so
    /// classification is a dot product.
    pub fn add(&mut self, class: ClassName, embedding: &[Float32])
        ensures
            final(self).examples@.len() == old(self).examples@.len() + 1,
            final(self).examples@.drop_last() == old(self).examples@,
            final(self).examples@.last().class == class,
            final(self).examples@.last().embedding@ == normalized(embedding@),
    {
        self.examples.push(Example { class, embedding: normalize(embedding) });
        assert(self.examples@.drop_last() =~= old(self).examples@);
    }

    /// The `n` most similar examples to `embedding`, most similar first, as
    /// `(class, cosine similarity)`.
    pub fn nearest(&self, embedding: &[Float32], n: usize) -> (r: Vec<(ClassName, Float32)>)
        ensures
            r@ == self.closest(embedding@, n as int),
            is_ranking(self.scores(embedding@), ranking(self.scores(embedding@))),
    {
        let query = normalize(embedding);
        let ghost scores = self.scores(embedding@);
        let mut order: Vec<(usize, Float32)> = Vec::new();
        let mut i: usize = 0;
        while i < self.examples.len()
            invariant
                i <= self.examples.len(),
                query@ == normalized(embedding@),
                scores == self.scores(embedding@),
                order@.len() == i,
                forall|k: int| #![trigger order@[k]]
                    0 <= k < i ==> order@[k].0 < i && order@[k].1 == scores[order@[k].0 as int],
                forall|k: int, l: int| #![trigger order@[k], order@[l]]
                    0 <= k < l < i ==> closer(
                        scores,
                        order@[k].0 as int,
                        order@[l].0 as int,
                    ),
                forall|j: int| 0 <= j < i ==> #[trigger] ordered_at(order@, j),
            decreases self.examples.len() - i,
        {
            let s = dot(query.as_slice(), self.examples[i].embedding.as_slice());
            assert(s == scores[i as int]);
            let ghost before = order@;
            let mut at: usize = order.len();
            while at > 0 && order[at - 1].1.ranks_below(s)
                invariant
                    at <= order.len() == i,
                    order@ == before,
                    forall|k: int| #![trigger before[k]]
                        at <= k < i ==> before[k].1.rank() < s.rank(),
                decreases at,
            {
                at = at - 1;
            }
            order.insert(at, (i, s));
            proof {
                let after = order@;
                assert forall|k: int| #![trigger after[k]] 0 <= k < i + 1 implies after[k].0 < i + 1
                    && after[k].1 == scores[after[k].0 as int] by {
                    if k < at {
                        assert(after[k] == before[k]);
                    } else if k > at {
                        assert(after[k] == before[k - 1]);
                    }
                }
                assert forall|k: int, l: int| #![trigger after[k], after[l]]
                    0 <= k < l < i + 1 implies closer(
                    scores,
                    after[k].0 as int,
                    after[l].0 as int,
                ) by {
                    if l < at {
                        assert(after[k] == before[k] && after[l] == before[l]);
                    } else if l == at {
                        assert(after[k] == before[k]);
                        assert(before[at - 1].1.rank() >= s.rank());
                        if k < at - 1 {
                            assert(closer(
                                scores,
                                before[k].0 as int,
                                before[at - 1].0 as int,
                            ));
                        }
                    } else if k < at {
                        assert(after[k] == before[k] && after[l] == before[l - 1]);
                    } else if k == at {
                        assert(after[l] == before[l - 1]);
                    } else {
                        assert(after[k] == before[k - 1] && after[l] == before[l - 1]);
                    }
                }
                assert forall|j: int| 0 <= j < i + 1 implies #[trigger] ordered_at(after, j) by {
                    if j == i {
                        assert(after[at as int].0 == j);
                    } else {
                        assert(ordered_at(before, j));
                        let k = choose|k: int| #![trigger before[k]]
                            0 <= k < before.len() && before[k].0 == j;
                        if k < at {
                            assert(after[k] == before[k]);
                        } else {
                            assert(after[k + 1] == before[k]);
                        }
                    }
                }
            }
            i = i + 1;
        }
        let ghost p = order@.map_values(|e: (usize, Float32)| e.0 as int);
        proof {
            assert forall|k: int, l: int| #![trigger p[k], p[l]]
                0 <= k < l < p.len() implies closer(scores, p[k], p[l]) by {
                assert(order@[k].0 == p[k] && order@[l].0 == p[l]);
            }
            assert forall|j: int| 0 <= j < scores.len() implies #[trigger] p.contains(j) by {
                assert(ordered_at(order@, j));
                let k = choose|k: int| #![trigger order@[k]]
                    0 <= k < order@.len() && order@[k].0 == j;
                assert(p[k] == j);
            }
            assert forall|k: int| #![trigger p[k]] 0 <= k < p.len() implies 0 <= p[k]
                < scores.len() by {
                assert(order@[k].0 == p[k]);
            }
            assert(is_ranking(scores, p));
            law_one_ranking(scores, p, ranking(scores));
        }
        let mut r: Vec<(ClassName, Float32)> = Vec::new();
        let mut k: usize = 0;
        while k < n && k < order.len()
            invariant
                k <= n,
                k <= order.len() == self.examples.len(),
                scores == self.scores(embedding@),
                p == order@.map_values(|e: (usize, Float32)| e.0 as int),
                p == ranking(scores),
                forall|j: int| #![trigger order@[j]]
                    0 <= j < order@.len() ==> order@[j].0 < self.examples@.len() && order@[j].1
                        == scores[order@[j].0 as int],
                r@.len() == k,
                forall|j: int| #![trigger r@[j]]
                    0 <= j < k ==> r@[j] == (self.examples@[p[j]].class, scores[p[j]]),
            decreases n - k,
        {
            let (at, s): (usize, Float32) = order[k];
            assert(p[k as int] == at);
            r.push((self.examples[at].class.clone(), s));
            k = k + 1;
        }
        assert(r@ =~= self.closest(embedding@, n as int));
        r
    }

    /// Recognise `embedding`: the nearest example's class if its cosine
    /// similarity is at least `min_similarity`, else `None`. The second
    /// element is that similarity.
    pub fn classify(
        &self,
        embedding: &[Float32],
        min_similarity: Float32,
    ) -> (r: (Option<ClassName>, Float32))
        ensures
            r == self.recognised(embedding@, min_similarity),
    {
        let mut found = self.nearest(embedding, 1);
        match found.pop() {
            Some((class, similarity)) => {
                assert((class, similarity) == self.closest(embedding@, 1)[0]);
                if min_similarity.le(similarity) {
                    (Some(class), similarity)
                } else {
                    (None, similarity)
                }
            },
            None => (None, Float32::of(0)),
        }
    }
}

/// Example `j` has its place in the list.
spec fn ordered_at(order: Seq<(usize, Float32)>, j: int) -> bool {
    exists|k: int| #![trigger order[k]] 0 <= k < order.len() && order[k].0 == j
}

} // verus!
