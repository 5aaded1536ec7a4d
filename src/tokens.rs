//! The admission pool: a fixed set of token values, handed out lowest first.
use bit_set::BitSet;
use vstd::prelude::*;

verus! {

/// A token value; it names one admitted viewer while its connection lives.
pub type TokenValue = usize;

/// The number of viewers that can be admitted at once.
pub const CAPACITY: usize = 65534;

/// A change of the pool, as reported to the update loop.
#[derive(Debug)]
pub enum TokenUpdate<T> {
    Acquire(TokenValue, T),
    Release(TokenValue),
}

#[verifier::external_type_specification]
#[verifier::external_body]
#[verifier::reject_recursive_types(B)]
pub struct ExBitSet<B>(BitSet<B>);

/// The values that a bit set holds.
pub uninterp spec fn bits_of(s: BitSet<u64>) -> Set<usize>;

/// Relies on `FromIterator<usize>` for `BitSet`, which inserts each value of `0..n`.
#[verifier::external_body]
fn full_bitset(n: usize) -> (r: BitSet<u64>)
    ensures
        bits_of(r) == Set::new(|v: usize| v < n),
{
    (0..n).collect()
}

/// Relies on `BitSet::iter`, which walks the blocks from the lowest bit up.
#[verifier::external_body]
fn lowest_bit(s: &BitSet<u64>) -> (r: Option<usize>)
    ensures
        r is None <==> bits_of(*s) == Set::<usize>::empty(),
        r matches Some(v) ==> bits_of(*s).contains(v) && forall|w: usize|
            #[trigger] bits_of(*s).contains(w) ==> v <= w,
{
    s.iter().next()
}

/// Relies on `BitSet::remove`: the value leaves; true if it was there.
#[verifier::external_body]
fn remove_bit(s: &mut BitSet<u64>, v: usize) -> (r: bool)
    ensures
        bits_of(*final(s)) == bits_of(*old(s)).remove(v),
        r == bits_of(*old(s)).contains(v),
{
    s.remove(v)
}

/// Relies on `BitSet::insert`: the value joins; true if it was not there.
#[verifier::external_body]
fn insert_bit(s: &mut BitSet<u64>, v: usize) -> (r: bool)
    requires
        v < CAPACITY,
    ensures
        bits_of(*final(s)) == bits_of(*old(s)).insert(v),
        r == !bits_of(*old(s)).contains(v),
{
    s.insert(v)
}

/// The free values of a pool of fixed capacity.
pub struct TokenPool {
    free: BitSet<u64>,
    capacity: usize,
}

impl TokenPool {
    /// The values that are free.
    pub closed spec fn free(&self) -> Set<usize> {
        bits_of(self.free)
    }

    /// The number of values the pool was made with.
    pub closed spec fn cap(&self) -> usize {
        self.capacity
    }

    /// Every free value lies below the capacity.
    pub open spec fn wf(&self) -> bool {
        &&& self.cap() <= CAPACITY
        &&& forall|v: usize| #[trigger] self.free().contains(v) ==> v < self.cap()
    }

    /// A pool of the full capacity, every value free.
    pub fn new() -> (r: TokenPool)
        ensures
            r.wf(),
            r.cap() == CAPACITY,
            r.free() == Set::new(|v: usize| v < CAPACITY),
    {
        TokenPool::with_capacity(CAPACITY)
    }

    /// A pool of `capacity` values, every one free.
    pub fn with_capacity(capacity: usize) -> (r: TokenPool)
        requires
            capacity <= CAPACITY,
        ensures
            r.wf(),
            r.cap() == capacity,
            r.free() == Set::new(|v: usize| v < capacity),
    {
        TokenPool { free: full_bitset(capacity), capacity }
    }

    /// The pool's capacity.
    pub fn capacity(&self) -> (r: usize)
        ensures
            r == self.cap(),
    {
        self.capacity
    }

    /// Takes the lowest free value; `None` when every value is taken.
    pub fn try_acquire(&mut self) -> (r: Option<TokenValue>)
        requires
            old(self).wf(),
        ensures
            final(self).wf(),
            final(self).cap() == old(self).cap(),
            r is None <==> old(self).free() == Set::<usize>::empty(),
            r is None ==> final(self).free() == old(self).free(),
            r matches Some(v) ==> old(self).free().contains(v) && (forall|w: usize|
                #[trigger] old(self).free().contains(w) ==> v <= w) && final(self).free()
                == old(self).free().remove(v),
    {
        match lowest_bit(&self.free) {
            None => None,
            Some(v) => {
                remove_bit(&mut self.free, v);
                assert forall|w: usize| #[trigger] self.free().contains(w) implies w < self.cap() by {
                    assert(old(self).free().contains(w));
                }
                Some(v)
            },
        }
    }

    /// Gives a value back; false, with the pool unchanged, if it was free already.
    pub fn release(&mut self, v: TokenValue) -> (r: bool)
        requires
            old(self).wf(),
            v < old(self).cap(),
        ensures
            final(self).wf(),
            final(self).cap() == old(self).cap(),
            r == !old(self).free().contains(v),
            final(self).free() == old(self).free().insert(v),
    {
        let r = insert_bit(&mut self.free, v);
        assert forall|w: usize| #[trigger] self.free().contains(w) implies w < self.cap() by {
            if w != v {
                assert(old(self).free().contains(w));
            }
        }
        r
    }
}

/// The values from `k` up to, but not including, `c`.
pub open spec fn value_range(k: int, c: int) -> Set<usize> {
    Set::new(|v: usize| k <= v < c)
}

/// Taking the lowest value of a pool whose free values are `k..c` takes `k`
/// and leaves `k + 1..c`: acquisitions from a fresh pool come out as
/// `0, 1, 2, ...`.
pub proof fn lemma_lowest_of_range(k: int, c: int, v: usize)
    requires
        0 <= k < c,
        value_range(k, c).contains(v),
        forall|w: usize| #[trigger] value_range(k, c).contains(w) ==> v <= w,
    ensures
        v == k,
        value_range(k, c).remove(v) == value_range(k + 1, c),
{
    assert(value_range(k, c).contains(k as usize));
    assert(value_range(k, c).remove(v) =~= value_range(k + 1, c));
}

/// After as many acquisitions as the capacity, no value is free, so the next
/// acquisition is refused.
pub proof fn lemma_range_exhausted(c: int)
    ensures
        value_range(c, c) == Set::<usize>::empty(),
{
    assert(value_range(c, c) =~= Set::<usize>::empty());
}

/// Releasing a value that was just acquired restores the free values, so
/// acquiring and releasing in turn never exhausts the pool.
pub proof fn lemma_acquire_release(free: Set<usize>, v: usize)
    requires
        free.contains(v),
    ensures
        free.remove(v).insert(v) == free,
        free.remove(v).insert(v).contains(v),
{
    assert(free.remove(v).insert(v) =~= free);
}

} // verus!
