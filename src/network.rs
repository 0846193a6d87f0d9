use std::collections::HashMap;
use vstd::prelude::*;

use crate::params::Rational;
use crate::rng::{advance, below, index_of, xorshift, Rng};

verus! {

/// `floor(avg * ratio)` as a numerator over `avg.den * ratio.den`: the whole part.
pub open spec fn within_floor(avg: Rational, ratio: Rational) -> int {
    (avg.num as int * ratio.num as int) / (avg.den as int * ratio.den as int)
}

/// The remainder of `avg * ratio` over `avg.den * ratio.den`.
pub open spec fn within_rem(avg: Rational, ratio: Rational) -> int {
    (avg.num as int * ratio.num as int) % (avg.den as int * ratio.den as int)
}

/// The ring degree for a drawn word `x`: `avg * ratio` rounded up when the
/// draw falls below its fractional part, down otherwise.
pub open spec fn within_count(avg: Rational, ratio: Rational, x: u64) -> int {
    within_floor(avg, ratio) + if below(
        x,
        within_rem(avg, ratio),
        avg.den as int * ratio.den as int,
    ) {
        1int
    } else {
        0int
    }
}

/// The ring degree is `avg * ratio` rounded down, or rounded up when it is
/// not whole; never anything else.
pub proof fn within_is_floor_or_ceil(avg: Rational, ratio: Rational, x: u64)
    requires
        avg.wf(),
        ratio.wf(),
    ensures
        within_count(avg, ratio, x) == within_floor(avg, ratio) || (within_rem(avg, ratio) != 0
            && within_count(avg, ratio, x) == within_floor(avg, ratio) + 1),
{
    let d = avg.den as int * ratio.den as int;
    assert(d > 0) by (nonlinear_arith)
        requires
            avg.den > 0,
            ratio.den > 0,
            d == avg.den as int * ratio.den as int,
    ;
    assert((x as int / 0x800) * d >= 0) by (nonlinear_arith)
        requires
            d > 0,
            x >= 0,
    ;
}

/// `ceil(max(0, avg - within))`.
pub open spec fn between_count(avg: Rational, within: int) -> int {
    let a = avg.num as int;
    let b = avg.den as int;
    if a <= within * b {
        0
    } else {
        (a - within * b + b - 1) / b
    }
}

/// The id `o` steps before `id` on the ring of `n` ids.
pub open spec fn ring_minus(id: int, n: int, o: int) -> int {
    (id - o) % n
}

/// The id `o` steps after `id` on the ring of `n` ids.
pub open spec fn ring_plus(id: int, n: int, o: int) -> int {
    (id + o) % n
}

/// `t` lies between `lo` (excluded) and `hi` steps before `id`.
pub open spec fn left_of(id: int, n: int, lo: int, hi: int, t: int) -> bool {
    exists|o: int| lo < o <= hi && t == #[trigger] ring_minus(id, n, o)
}

/// `t` lies between `lo` (excluded) and `hi` steps after `id`.
pub open spec fn right_of(id: int, n: int, lo: int, hi: int, t: int) -> bool {
    exists|o: int| lo < o <= hi && t == #[trigger] ring_plus(id, n, o)
}

/// `t` lies on the ring of `id` within `half` steps either way.
pub open spec fn ring_member(id: int, n: int, half: int, t: int) -> bool {
    left_of(id, n, 0, half, t) || right_of(id, n, 0, half, t)
}

/// `t` is one of the first `count` indices drawn from state `s`, and not `id`.
pub open spec fn draw_member(s: u64, n: int, id: int, count: int, t: int) -> bool {
    t != id && exists|i: int| 0 <= i < count && t == index_of(#[trigger] advance(s, (i + 1) as nat), n)
}

/// A list of distinct ids below `n`.
pub open spec fn id_list(s: Seq<u32>, n: int) -> bool {
    &&& s.no_duplicates()
    &&& forall|i: int| 0 <= i < s.len() ==> (#[trigger] s[i]) < n
}

proof fn lemma_ring_left(id: int, n: int, k: int)
    requires
        0 <= id < n,
        k >= 1,
    ensures
        (id + n - k % n) % n == (id - k) % n,
        0 <= (id - k) % n < n,
{
    vstd::arithmetic::div_mod::lemma_fundamental_div_mod(k, n);
    vstd::arithmetic::div_mod::lemma_mod_multiples_vanish(-(k / n) - 1, id + n - k % n, n);
    vstd::arithmetic::div_mod::lemma_mod_bound(id - k, n);
    assert(n * (-(k / n) - 1) + (id + n - k % n) == id - k) by (nonlinear_arith)
        requires
            k == n * (k / n) + k % n,
    ;
}

proof fn lemma_ring_right(id: int, n: int, k: int)
    requires
        0 <= id < n,
        k >= 1,
    ensures
        (id + k % n) % n == (id + k) % n,
        0 <= (id + k) % n < n,
{
    vstd::arithmetic::div_mod::lemma_fundamental_div_mod(k, n);
    vstd::arithmetic::div_mod::lemma_mod_multiples_vanish(k / n, id + k % n, n);
    vstd::arithmetic::div_mod::lemma_mod_bound(id + k, n);
}

/// Appends `x` unless it is already there.
pub fn insert_unique(v: &mut Vec<u32>, x: u32)
    ensures
        final(v)@ == if old(v)@.contains(x) {
            old(v)@
        } else {
            old(v)@.push(x)
        },
        forall|y: u32| #[trigger] final(v)@.contains(y) <==> old(v)@.contains(y) || y == x,
        forall|n: int| id_list(old(v)@, n) && x < n ==> id_list(final(v)@, n),
{
    proof {
        assert forall|y: u32| #[trigger] old(v)@.push(x).contains(y) <==> old(v)@.contains(y) || y == x by {
            if old(v)@.push(x).contains(y) {
                let j = choose|j: int| 0 <= j < old(v)@.len() + 1 && old(v)@.push(x)[j] == y;
                if j < old(v)@.len() {
                    assert(old(v)@[j] == y);
                }
            }
            if old(v)@.contains(y) {
                let j = choose|j: int| 0 <= j < old(v)@.len() && old(v)@[j] == y;
                assert(old(v)@.push(x)[j] == y);
            }
            if y == x {
                assert(old(v)@.push(x)[old(v)@.len() as int] == y);
            }
        }
    }
    let mut i: usize = 0;
    while i < v.len()
        invariant
            i <= v.len(),
            forall|j: int| 0 <= j < i ==> v@[j] != x,
        decreases v.len() - i,
    {
        if v[i] == x {
            return;
        }
        i = i + 1;
    }
    v.push(x);
}

/// A lazily generated social graph over the ids `[0, total_population)`,
/// with a cache of the neighbour lists generated so far. A list is dropped
/// once its owner has no one left to reach, so memory follows the active
/// frontier; a list asked for again after that is generated anew.
pub struct SocialNetwork {
    pub total_population: u32,
    pub avg_connections: Rational,
    pub within_ratio: Rational,
    pub connection_cache: HashMap<u32, Vec<u32>>,
}

impl SocialNetwork {
    pub open spec fn wf(&self) -> bool {
        &&& self.total_population > 0
        &&& self.avg_connections.wf()
        &&& self.within_ratio.wf()
        &&& forall|k: u32| #[trigger]
            self.connection_cache@.contains_key(k) ==> id_list(
                self.connection_cache@[k]@,
                self.total_population as int,
            )
    }

    /// A network with an empty cache.
    pub fn new(total_population: u32, avg_connections: Rational, within_ratio: Rational) -> (r:
        SocialNetwork)
        ensures
            r.total_population == total_population,
            r.avg_connections == avg_connections,
            r.within_ratio == within_ratio,
            r.connection_cache@ == Map::<u32, Vec<u32>>::empty(),
    {
        SocialNetwork {
            total_population,
            avg_connections,
            within_ratio,
            connection_cache: HashMap::new(),
        }
    }

    /// Draws once and returns the ring degree and the count of random ties.
    pub fn get_connection_counts(&self, rng: &mut Rng) -> (r: (u64, u64))
        requires
            self.avg_connections.wf(),
            self.within_ratio.wf(),
        ensures
            final(rng).state == xorshift(old(rng).state),
            r.0 == within_count(self.avg_connections, self.within_ratio, final(rng).state),
            r.1 == between_count(self.avg_connections, r.0 as int),
    {
        let a = self.avg_connections.num as u64;
        let b = self.avg_connections.den as u64;
        let c = self.within_ratio.num as u64;
        let d = self.within_ratio.den as u64;
        proof {
            assert(a * c <= u64::MAX && b * d <= u64::MAX && b * d > 0) by (nonlinear_arith)
                requires
                    a <= u32::MAX,
                    b <= u32::MAX,
                    c <= u32::MAX,
                    d <= u32::MAX,
                    b > 0,
                    d > 0,
            ;
        }
        let prod_num = a * c;
        let prod_den = b * d;
        let whole = prod_num / prod_den;
        let rem = prod_num % prod_den;
        let up = rng.chance(rem, prod_den);
        let within = if up {
            proof {
                assert(whole < prod_num) by (nonlinear_arith)
                    requires
                        whole == prod_num / prod_den,
                        up == below(rng.state, rem as int, prod_den as int),
                        rem == prod_num % prod_den,
                        prod_den > 0,
                        (rng.state as int / 0x800) * prod_den >= 0,
                        up ==> rem > 0,
                        up,
                ;
            }
            whole + 1
        } else {
            whole
        };
        proof {
            assert(within as int * b as int <= u128::MAX) by (nonlinear_arith)
                requires
                    within <= u64::MAX,
                    b <= u32::MAX,
            ;
        }
        let wb = (within as u128) * (b as u128);
        let between = if (a as u128) <= wb {
            0
        } else {
            (((a as u128) - wb + (b as u128) - 1) / (b as u128)) as u64
        };
        (within, between)
    }

    /// Forgets the cached neighbour list of `id`.
    pub fn clear_cache_of(&mut self, id: u32)
        ensures
            old(self).wf() ==> final(self).wf(),
            final(self).total_population == old(self).total_population,
            final(self).avg_connections == old(self).avg_connections,
            final(self).within_ratio == old(self).within_ratio,
            final(self).connection_cache@ == old(self).connection_cache@.remove(id),
    {
        self.connection_cache.remove(&id);
    }

    /// The neighbours of `person_id`: the cached list when there is one;
    /// otherwise a new list, made of the ring of `within / 2` ids on each side
    /// and of `between` uniform draws other than `person_id`, which is cached.
    pub fn get_connections(&mut self, rng: &mut Rng, person_id: u32) -> (r: Vec<u32>)
        requires
            old(self).wf(),
            person_id < old(self).total_population,
        ensures
            final(self).wf(),
            final(self).total_population == old(self).total_population,
            final(self).avg_connections == old(self).avg_connections,
            final(self).within_ratio == old(self).within_ratio,
            id_list(r@, old(self).total_population as int),
            old(self).connection_cache@.contains_key(person_id) ==> {
                &&& r@ == old(self).connection_cache@[person_id]@
                &&& final(self).connection_cache@ == old(self).connection_cache@
                &&& final(rng).state == old(rng).state
            },
            !old(self).connection_cache@.contains_key(person_id) ==> {
                let x = xorshift(old(rng).state);
                let within = within_count(old(self).avg_connections, old(self).within_ratio, x);
                let between = between_count(old(self).avg_connections, within);
                let n = old(self).total_population as int;
                &&& final(self).connection_cache@.contains_key(person_id)
                &&& final(self).connection_cache@[person_id]@ == r@
                &&& final(self).connection_cache@.remove(person_id) == old(
                    self,
                ).connection_cache@.remove(person_id)
                &&& final(rng).state == advance(x, between as nat)
                &&& forall|t: u32|
                    #[trigger] r@.contains(t) <==> ring_member(
                        person_id as int,
                        n,
                        within / 2,
                        t as int,
                    ) || draw_member(x, n, person_id as int, between, t as int)
            },
    {
        match self.connection_cache.get(&person_id) {
            Some(cached) => {
                let r = cached.clone();
                assert(r@ =~= cached@);
                return r;
            },
            None => {},
        }
        let n = self.total_population;
        let (within, between) = self.get_connection_counts(rng);
        let ghost x = rng.state;
        let half = within / 2;
        let mut result: Vec<u32> = Vec::new();
        let mut k: u64 = half;
        while k > 0
            invariant
                k <= half,
                n > 0,
                person_id < n,
                id_list(result@, n as int),
                forall|t: u32|
                    #[trigger] result@.contains(t) <==> left_of(person_id as int, n as int, k as int, half as int, t as int),
            decreases k,
        {
            let target = ((person_id as u64 + n as u64 - (k % n as u64)) % n as u64) as u32;
            proof {
                lemma_ring_left(person_id as int, n as int, k as int);
            }
            let ghost prev = result@;
            insert_unique(&mut result, target);
            proof {
                let (id, nn) = (person_id as int, n as int);
                assert(target as int == ring_minus(id, nn, k as int));
                assert forall|t: u32| #[trigger] result@.contains(t) <==> left_of(id, nn, k - 1, half as int, t as int) by {
                    if left_of(id, nn, k - 1, half as int, t as int) {
                        let o = choose|o: int| k - 1 < o <= half && t as int == #[trigger] ring_minus(id, nn, o);
                        if o != k {
                            assert(left_of(id, nn, k as int, half as int, t as int));
                        }
                    }
                    if prev.contains(t) {
                        let o = choose|o: int| k < o <= half && t as int == #[trigger] ring_minus(id, nn, o);
                        assert(k - 1 < o);
                    }
                }
            }
            k = k - 1;
        }
        let mut k: u64 = 1;
        while k <= half
            invariant
                1 <= k,
                k <= half + 1,
                half == within / 2,
                n > 0,
                person_id < n,
                id_list(result@, n as int),
                forall|t: u32|
                    #[trigger] result@.contains(t) <==> left_of(person_id as int, n as int, 0, half as int, t as int)
                        || right_of(person_id as int, n as int, 0, k - 1, t as int),
            decreases half + 1 - k,
        {
            let target = ((person_id as u64 + (k % n as u64)) % n as u64) as u32;
            proof {
                lemma_ring_right(person_id as int, n as int, k as int);
            }
            let ghost prev = result@;
            insert_unique(&mut result, target);
            proof {
                let (id, nn) = (person_id as int, n as int);
                assert(target as int == ring_plus(id, nn, k as int));
                assert forall|t: u32| #[trigger] result@.contains(t) <==> left_of(id, nn, 0, half as int, t as int)
                    || right_of(id, nn, 0, k as int, t as int) by {
                    if right_of(id, nn, 0, k as int, t as int) {
                        let o = choose|o: int| 0 < o <= k && t as int == #[trigger] ring_plus(id, nn, o);
                        if o != k {
                            assert(right_of(id, nn, 0, k - 1, t as int));
                        }
                    }
                    if right_of(id, nn, 0, k - 1, t as int) {
                        let o = choose|o: int| 0 < o <= k - 1 && t as int == #[trigger] ring_plus(id, nn, o);
                        assert(o <= k);
                    }
                }
            }
            k = k + 1;
        }
        let mut i: u64 = 0;
        while i < between
            invariant
                i <= between,
                n > 0,
                person_id < n,
                rng.state == advance(x, i as nat),
                id_list(result@, n as int),
                forall|t: u32|
                    #[trigger] result@.contains(t) <==> ring_member(person_id as int, n as int, half as int, t as int)
                        || draw_member(x, n as int, person_id as int, i as int, t as int),
            decreases between - i,
        {
            let r = rng.next_index(n as usize) as u32;
            let ghost prev = result@;
            if r != person_id {
                insert_unique(&mut result, r);
            }
            proof {
                let (id, nn) = (person_id as int, n as int);
                assert(rng.state == advance(x, (i + 1) as nat));
                assert forall|t: u32| #[trigger] result@.contains(t) <==> ring_member(id, nn, half as int, t as int)
                    || draw_member(x, nn, id, i + 1, t as int) by {
                    if draw_member(x, nn, id, i + 1, t as int) {
                        let j = choose|j: int| 0 <= j < i + 1 && t as int == index_of(#[trigger] advance(x, (j + 1) as nat), nn);
                        if j != i {
                            assert(draw_member(x, nn, id, i as int, t as int));
                        }
                    }
                    if draw_member(x, nn, id, i as int, t as int) {
                        let j = choose|j: int| 0 <= j < i && t as int == index_of(#[trigger] advance(x, (j + 1) as nat), nn);
                        assert(j < i + 1);
                    }
                    if r != person_id && t == r {
                        assert(0 <= i < i + 1 && t as int == index_of(advance(x, (i + 1) as nat), nn));
                    }
                }
            }
            i = i + 1;
        }
        let copy = result.clone();
        assert(copy@ =~= result@);
        self.connection_cache.insert(person_id, copy);
        proof {
            assert(self.connection_cache@.remove(person_id) =~= old(self).connection_cache@.remove(
                person_id,
            ));
        }
        result
    }
}

} // verus!
