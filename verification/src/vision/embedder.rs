//! What the embedder is fed, and what its answer means.
use super::catalog::{names_hold, sorted_names, Catalog};
use super::ClassName;
use crate::float::Float32;
use vstd::prelude::*;

verus! {

/// Mean of a colour channel over ImageNet, red first.
pub open spec fn channel_mean(c: int) -> Float32 {
    if c == 0 {
        Float32::nearest(485, 1000)
    } else if c == 1 {
        Float32::nearest(456, 1000)
    } else {
        Float32::nearest(406, 1000)
    }
}

/// Standard deviation of a colour channel over ImageNet, red first.
pub open spec fn channel_deviation(c: int) -> Float32 {
    if c == 0 {
        Float32::nearest(229, 1000)
    } else if c == 1 {
        Float32::nearest(224, 1000)
    } else {
        Float32::nearest(225, 1000)
    }
}

/// A colour value scaled to [0,1] and normalised for its channel.
pub open spec fn normalised_value(v: u8, c: int) -> Float32 {
    Float32::nearest(v as int, 1).quotient(Float32::nearest(255, 1)).difference(
        channel_mean(c),
    ).quotient(channel_deviation(c))
}

fn value_table(mean: Float32, deviation: Float32) -> (r: Vec<Float32>)
    ensures
        r@.len() == 256,
        forall|v: int| #![trigger r@[v]]
            0 <= v < 256 ==> r@[v] == Float32::nearest(v, 1).quotient(
                Float32::nearest(255, 1),
            ).difference(mean).quotient(deviation),
{
    let full = Float32::of(255);
    let mut r: Vec<Float32> = Vec::new();
    let mut v: i64 = 0;
    while v < 256
        invariant
            0 <= v <= 256,
            full == Float32::nearest(255, 1),
            r@.len() == v,
            forall|w: int| #![trigger r@[w]]
                0 <= w < v ==> r@[w] == Float32::nearest(w, 1).quotient(
                    Float32::nearest(255, 1),
                ).difference(mean).quotient(deviation),
        decreases 256 - v,
    {
        r.push(Float32::of(v).over(full).minus(mean).over(deviation));
        v = v + 1;
    }
    r
}

/// One channel of the picture, pixel by pixel.
spec fn plane_filled(data: Seq<Float32>, bytes: Seq<u8>, n: int, c: int, p: int) -> bool {
    forall|q: int| #![trigger data[c * n + q]]
        0 <= q < p ==> data[c * n + q] == normalised_value(bytes[3 * q + c], c)
}

/// Appends one channel.
fn push_plane(data: &mut Vec<Float32>, bytes: &[u8], table: &Vec<Float32>, c: usize)
    requires
        c < 3,
        bytes@.len() % 3 == 0,
        old(data)@.len() == c * (bytes@.len() / 3),
        table@.len() == 256,
        forall|v: int| #![trigger table@[v]]
            0 <= v < 256 ==> table@[v] == normalised_value(v as u8, c as int),
    ensures
        final(data)@.len() == (c + 1) * (bytes@.len() / 3),
        forall|k: int| #![trigger final(data)@[k]]
            0 <= k < old(data)@.len() ==> final(data)@[k] == old(data)@[k],
        plane_filled(
            final(data)@,
            bytes@,
            (bytes@.len() / 3) as int,
            c as int,
            (bytes@.len() / 3) as int,
        ),
{
    let total: usize = bytes.len();
    let n: usize = total / 3;
    let ghost before = data@;
    let ghost start = c * n;
    let mut p: usize = 0;
    while p < n
        invariant
            p <= n,
            n == bytes@.len() / 3,
            total == bytes@.len(),
            bytes@.len() % 3 == 0,
            c < 3,
            start == c * n,
            before.len() == start,
            data@.len() == start + p,
            table@.len() == 256,
            forall|v: int| #![trigger table@[v]]
                0 <= v < 256 ==> table@[v] == normalised_value(v as u8, c as int),
            forall|k: int| #![trigger data@[k]] 0 <= k < start ==> data@[k] == before[k],
            forall|q: int| #![trigger data@[start + q]]
                0 <= q < p ==> data@[start + q] == normalised_value(
                    bytes@[3 * q + c],
                    c as int,
                ),
        decreases n - p,
    {
        let v: u8 = bytes[3 * p + c];
        assert(table@[v as int] == normalised_value(v, c as int));
        data.push(table[v as usize]);
        p = p + 1;
    }
    assert((c + 1) * n == start + n) by (nonlinear_arith)
        requires
            start == c * n,
    ;
    assert forall|q: int| #![trigger data@[c * n + q]] 0 <= q < n implies data@[c * n + q]
        == normalised_value(bytes@[3 * q + c], c as int) by {
        assert(data@[start + q] == normalised_value(bytes@[3 * q + c], c as int));
    }
}

/// The input of the embedder from the bytes of an RGB picture (red, green and
/// blue of each pixel in turn): scaled to [0,1], normalised, and laid out
/// channel by channel.
pub fn preprocess(bytes: &[u8]) -> (r: Vec<Float32>)
    requires
        bytes@.len() % 3 == 0,
    ensures
        r@.len() == bytes@.len(),
        forall|c: int, p: int| #![trigger r@[c * (bytes@.len() / 3) + p]]
            0 <= c < 3 && 0 <= p < bytes@.len() / 3 ==> r@[c * (bytes@.len() / 3) + p]
                == normalised_value(bytes@[3 * p + c], c),
{
    let ghost n = (bytes@.len() / 3) as int;
    let mut data: Vec<Float32> = Vec::new();
    let red = value_table(Float32::ratio(485, 1000), Float32::ratio(229, 1000));
    let green = value_table(Float32::ratio(456, 1000), Float32::ratio(224, 1000));
    let blue = value_table(Float32::ratio(406, 1000), Float32::ratio(225, 1000));
    assert(0 * n == 0) by (nonlinear_arith);
    push_plane(&mut data, bytes, &red, 0);
    let ghost one = data@;
    assert(1 * n == n) by (nonlinear_arith);
    push_plane(&mut data, bytes, &green, 1);
    let ghost two = data@;
    assert(2 * n == n + n) by (nonlinear_arith);
    push_plane(&mut data, bytes, &blue, 2);
    proof {
        assert forall|c: int, p: int| #![trigger data@[c * n + p]]
            0 <= c < 3 && 0 <= p < n implies data@[c * n + p] == normalised_value(
            bytes@[3 * p + c],
            c,
        ) by {
            if c == 0 {
                assert(one[0 * n + p] == normalised_value(bytes@[3 * p + 0], 0));
                assert(two[p] == one[p]);
                assert(data@[p] == two[p]);
            } else if c == 1 {
                assert(two[1 * n + p] == normalised_value(bytes@[3 * p + 1], 1));
                assert(data@[n + p] == two[n + p]);
            } else {
                assert(data@[2 * n + p] == normalised_value(bytes@[3 * p + 2], 2));
            }
        }
    }
    data
}

/// The learned catalogue and the match threshold.
pub struct Recognizer {
    pub catalog: Catalog,
    pub threshold: Float32,
}

impl Recognizer {
    pub fn new(catalog: Catalog, threshold: Float32) -> (r: Recognizer)
        ensures
            r == (Recognizer { catalog, threshold }),
    {
        Recognizer { catalog, threshold }
    }

    /// What an embedding is recognised as.
    pub open spec fn class_of(self, embedding: Seq<Float32>) -> Option<ClassName> {
        self.catalog.recognised(embedding, self.threshold).0
    }

    /// How many classes are known.
    pub fn class_count(&self) -> (r: usize)
        ensures
            exists|names: Seq<ClassName>|
                #![trigger sorted_names(names)]
                {
                    &&& names.len() == r
                    &&& sorted_names(names)
                    &&& forall|c: Seq<char>| #[trigger]
                        names_hold(names, c) <==> super::catalog::taught(
                            self.catalog.examples@,
                            c,
                        )
                },
    {
        let names = self.catalog.classes();
        assert(sorted_names(names@));
        names.len()
    }

    /// Recognise an object by its embedding, or `None` if no catalogue class
    /// is similar enough (the object is then left unsorted).
    pub fn classify(&self, embedding: &[Float32]) -> (r: Option<ClassName>)
        ensures
            r == self.class_of(embedding@),
    {
        self.catalog.classify(embedding, self.threshold).0
    }
}

} // verus!
