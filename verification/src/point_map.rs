//! A hash map keyed by `Point`, stored under an integer code of each point.

use crate::grid::Point;
use std::collections::HashMap;
use vstd::prelude::*;
use vstd::std_specs::hash::group_hash_axioms;

verus! {

broadcast use group_hash_axioms;

/// The code of a point: both coordinates shifted to be non-negative and
/// laid side by side in 64 bits.
pub open spec fn spec_code(p: Point) -> u64 {
    ((p.x + 0x8000_0000) * 0x1_0000_0000 + (p.y + 0x8000_0000)) as u64
}

/// The point that has the code `k`.
pub open spec fn spec_decode(k: u64) -> Point {
    Point { x: (k / 0x1_0000_0000 - 0x8000_0000) as i32, y: (k % 0x1_0000_0000 - 0x8000_0000) as i32 }
}

/// Coding a point and decoding it again gives the point back.
pub proof fn lemma_decode_code(p: Point)
    ensures
        spec_decode(spec_code(p)) == p,
{
}

/// Decoding a code and coding the point again gives the code back.
pub proof fn lemma_code_decode(k: u64)
    ensures
        spec_code(spec_decode(k)) == k,
{
}

/// Different points have different codes.
pub proof fn lemma_code_injective(a: Point, b: Point)
    ensures
        spec_code(a) == spec_code(b) <==> a == b,
{
    lemma_decode_code(a);
    lemma_decode_code(b);
}

/// All points there are.
pub open spec fn all_points() -> Set<Point> {
    Set::new(|p: Point| true)
}

/// There are finitely many points.
pub proof fn lemma_points_finite()
    ensures
        all_points().finite(),
{
    let codes = vstd::set_lib::set_int_range(0, 0x1_0000_0000_0000_0000);
    let decode = |k: int| spec_decode(k as u64);
    vstd::set_lib::lemma_int_range(0, 0x1_0000_0000_0000_0000);
    codes.lemma_map_finite(decode);
    assert forall|p: Point| all_points().contains(p) implies codes.map(decode).contains(p) by {
        lemma_decode_code(p);
        assert(codes.contains(spec_code(p) as int));
        assert(decode(spec_code(p) as int) == p);
    }
    vstd::set_lib::lemma_len_subset(all_points(), codes.map(decode));
}

/// The code of `p`.
pub fn code(p: Point) -> (k: u64)
    ensures
        k == spec_code(p),
{
    let hi: u64 = (p.x as i64 + 0x8000_0000) as u64;
    let lo: u64 = (p.y as i64 + 0x8000_0000) as u64;
    hi * 0x1_0000_0000 + lo
}

/// A map from points to values of type `V`.
pub struct PointMap<V> {
    inner: HashMap<u64, V>,
}

impl<V> View for PointMap<V> {
    type V = Map<Point, V>;

    /// The value held for each point that has one.
    closed spec fn view(&self) -> Map<Point, V> {
        Map::new(
            |p: Point| self.inner@.contains_key(spec_code(p)),
            |p: Point| self.inner@[spec_code(p)],
        )
    }
}

impl<V> PointMap<V> {
    /// An empty map.
    pub fn new() -> (m: Self)
        ensures
            m@ == Map::<Point, V>::empty(),
    {
        let m = PointMap { inner: HashMap::new() };
        assert(m@ =~= Map::<Point, V>::empty());
        m
    }

    /// A map holds finitely many points.
    pub proof fn lemma_finite(&self)
        ensures
            self@.dom().finite(),
    {
        let codes = self.inner@.dom();
        let decode = |k: u64| spec_decode(k);
        codes.lemma_map_finite(decode);
        assert forall|p: Point| self@.dom().contains(p) implies codes.map(decode).contains(p) by {
            lemma_decode_code(p);
            assert(codes.contains(spec_code(p)));
            assert(decode(spec_code(p)) == p);
        }
        assert forall|p: Point| codes.map(decode).contains(p) implies self@.dom().contains(p) by {
            let k = choose|k: u64| codes.contains(k) && p == decode(k);
            lemma_code_decode(k);
        }
        assert(self@.dom() =~= codes.map(decode));
    }

    /// Whether the map holds a value for `p`.
    pub fn contains_key(&self, p: Point) -> (b: bool)
        ensures
            b == self@.contains_key(p),
    {
        let k = code(p);
        self.inner.contains_key(&k)
    }

    /// The value held for `p`, if any.
    pub fn get(&self, p: Point) -> (r: Option<&V>)
        ensures
            match r {
                Some(v) => self@.contains_key(p) && *v == self@[p],
                None => !self@.contains_key(p),
            },
    {
        let k = code(p);
        self.inner.get(&k)
    }

    /// Sets the value held for `p`, replacing an earlier one.
    pub fn insert(&mut self, p: Point, v: V)
        ensures
            final(self)@ == old(self)@.insert(p, v),
    {
        let k = code(p);
        self.inner.insert(k, v);
        proof {
            assert forall|q: Point| q != p implies spec_code(q) != spec_code(p) by {
                lemma_code_injective(q, p);
            }
            assert(self@ =~= old(self)@.insert(p, v));
        }
    }

    /// Takes the value held for `p` out of the map.
    pub fn remove(&mut self, p: Point) -> (r: Option<V>)
        ensures
            final(self)@ == old(self)@.remove(p),
            match r {
                Some(v) => old(self)@.contains_key(p) && v == old(self)@[p],
                None => !old(self)@.contains_key(p),
            },
    {
        let k = code(p);
        let r = self.inner.remove(&k);
        proof {
            assert forall|q: Point| q != p implies spec_code(q) != spec_code(p) by {
                lemma_code_injective(q, p);
            }
            assert(self@ =~= old(self)@.remove(p));
        }
        r
    }
}

} // verus!
