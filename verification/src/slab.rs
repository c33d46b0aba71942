//! A vector tracked by a backing bitmap: a primitive allocator for uniform
//! structures that supports in-place free and reuses freed slots before it
//! grows.
//!
//! The bitmap groups one occupancy bit per slot into 64-bit words.  Given
//! `[0xff, 0b...11011101, 0x0]`, the first 8 entries of the backing vector
//! are present, the second word shows `inner[9]` and `inner[13]` absent, and
//! everything from `inner[128]` on is absent.

use vstd::prelude::*;

verus! {

/// Number of occupancy bits per bitmap word.
pub const BITS_PER_WORD: usize = 64;

/// True when bit `b` of `w` is set.
pub open spec fn word_bit(w: u64, b: u64) -> bool
    recommends
        b < 64,
{
    (w >> b) & 1u64 == 1u64
}

/// An index-stable store: a growable array plus a parallel occupancy bitmap.
pub struct Slab<T> {
    /// The inner backing memory.
    inner: Vec<T>,
    /// One occupancy bit per `inner` slot, 64 slots per word.
    bitmap: Vec<u64>,
}

impl<T> Slab<T> {
    /// Number of slots currently backed by the array.
    pub open spec fn spec_len(&self) -> nat {
        self.slots().len()
    }

    /// Total number of occupancy bits the bitmap holds.
    pub closed spec fn num_bits(&self) -> int {
        self.bitmap@.len() * 64int
    }

    /// The stored values, occupied or not, in slot order.
    pub closed spec fn slots(&self) -> Seq<T> {
        self.inner@
    }

    /// True when slot `i` is occupied (its occupancy bit is set).
    pub closed spec fn occ(&self, i: int) -> bool
        recommends
            0 <= i < self.num_bits(),
    {
        word_bit(self.bitmap@[i / 64], (i % 64) as u64)
    }

    /// Structural well-formedness: every slot has an occupancy bit, the bit
    /// count stays addressable, and bits past the array's end are clear.
    pub open spec fn wf(&self) -> bool {
        &&& self.spec_len() <= self.num_bits()
        &&& self.num_bits() <= usize::MAX as int
        &&& forall|i: int|
            self.spec_len() <= i < self.num_bits() ==> !#[trigger] self.occ(i)
    }

    /// Some slot below the current length is free.
    pub open spec fn has_free(&self) -> bool {
        exists|i: int| 0 <= i < self.spec_len() && !#[trigger] self.occ(i)
    }

    /// `i` is the lowest free slot below the current length.
    pub open spec fn is_min_free(&self, i: int) -> bool {
        &&& 0 <= i < self.spec_len()
        &&& !self.occ(i)
        &&& forall|j: int| 0 <= j < i ==> #[trigger] self.occ(j)
    }

    /// Create a new slab able to hold `cap` slots before its bitmap grows.
    pub fn with_capacity(cap: usize) -> (s: Self)
        requires
            cap <= usize::MAX - 64,
        ensures
            s.wf(),
            s.spec_len() == 0,
            s.slots() == Seq::<T>::empty(),
            s.num_bits() > cap,
    {
        let bm_entries = cap / BITS_PER_WORD + 1;
        let mut bitmap: Vec<u64> = Vec::new();
        let mut k: usize = 0;
        while k < bm_entries
            invariant
                k <= bm_entries,
                bm_entries == cap / 64 + 1,
                bitmap@.len() == k,
                forall|w: int| 0 <= w < k ==> bitmap@[w] == 0u64,
            decreases bm_entries - k,
        {
            bitmap.push(0);
            k += 1;
        }
        let s = Slab { inner: Vec::new(), bitmap };
        proof {
            lemma_zero_word();
            assert forall|i: int| 0 <= i < s.num_bits() implies !s.occ(i) by {
                lemma_div_mod_64(i);
            }
            assert(s.num_bits() == (cap / 64 + 1) * 64);
            assert((cap / 64 + 1) * 64 > cap && (cap / 64 + 1) * 64 <= cap + 64)
                by (nonlinear_arith);
        }
        s
    }

    /// Length of the backing array, i.e. the slab's high-water mark.
    pub fn len(&self) -> (n: usize)
        ensures
            n == self.spec_len(),
    {
        self.inner.len()
    }

    /// Given an index into the backing array, return the index of its bitmap
    /// word and the position of its bit within that word.
    pub fn get_bitmap_idx(&self, idx: usize) -> (r: (usize, usize))
        ensures
            r.0 == idx as int / 64,
            r.1 == idx as int % 64,
            r.1 < 64,
    {
        let bit_idx = idx % BITS_PER_WORD;
        let map_idx = idx / BITS_PER_WORD;
        (map_idx, bit_idx)
    }

    /// Checks whether the slot at `idx` is inhabited (its bit is set).
    ///
    /// Out-of-range queries are a programming error and are ruled out by the
    /// caller, matching a fatal stop at runtime.
    pub fn is_vacant(&self, idx: usize) -> (r: bool)
        requires
            self.wf(),
            idx < self.spec_len(),
        ensures
            r == self.occ(idx as int),
    {
        let (map_idx, bit_idx) = self.get_bitmap_idx(idx);
        proof {
            lemma_div_mod_64(idx as int);
            lemma_div_below(idx as int, self.bitmap@.len() as int);
        }
        let w = self.bitmap[map_idx];
        let b = bit_idx as u64;
        let r = w & (1u64 << b) != 0;
        proof {
            lemma_test_bit(w, b);
        }
        r
    }

    /// Marks the slot at `idx` as inhabited.
    pub fn mark_vacant(&mut self, idx: usize)
        requires
            old(self).wf(),
            idx < old(self).spec_len(),
        ensures
            final(self).wf(),
            final(self).slots() == old(self).slots(),
            final(self).spec_len() == old(self).spec_len(),
            final(self).num_bits() == old(self).num_bits(),
            final(self).occ(idx as int),
            forall|j: int|
                0 <= j < final(self).num_bits() && j != idx ==> final(self).occ(j)
                    == old(self).occ(j),
    {
        let (map_idx, bit_idx) = self.get_bitmap_idx(idx);
        proof {
            lemma_div_mod_64(idx as int);
            lemma_div_below(idx as int, self.bitmap@.len() as int);
        }
        let b = bit_idx as u64;
        let w = self.bitmap[map_idx];
        self.bitmap[map_idx] = w | (1u64 << b);
        proof {
            lemma_set_bit(w, b);
            assert forall|j: int|
                0 <= j < final(self).num_bits() && j != idx implies final(self).occ(j)
                == old(self).occ(j) by {
                lemma_div_mod_64(j);
                lemma_div_mod_64(idx as int);
            }
            assert(final(self).occ(idx as int));
            assert forall|i: int|
                final(self).spec_len() <= i < final(self).num_bits() implies !final(self).occ(i) by {
                lemma_div_mod_64(i);
                lemma_div_mod_64(idx as int);
            }
        }
    }

    /// Returns a reference to the element at `idx` if the slot is occupied.
    ///
    /// Out-of-range queries are a programming error and are ruled out by the
    /// caller, matching a fatal stop at runtime; in-range queries of a freed
    /// slot simply yield `None`.
    pub fn get(&self, idx: usize) -> (r: Option<&T>)
        requires
            self.wf(),
            idx < self.spec_len(),
        ensures
            (r is None <==> !self.occ(idx as int)),
            r matches Some(v) ==> *v == self.slots()[idx as int],
    {
        if self.is_vacant(idx) {
            Some(&self.inner[idx])
        } else {
            None
        }
    }

    /// Returns a mutable reference to the element at `idx` if the slot is
    /// occupied.  The occupancy bits are untouched either way.
    pub fn get_mut(&mut self, idx: usize) -> (r: Option<&mut T>)
        requires
            old(self).wf(),
            idx < old(self).spec_len(),
        ensures
            (r is None <==> !old(self).occ(idx as int)),
            !old(self).occ(idx as int) ==> *final(self) == *old(self),
            old(self).occ(idx as int) ==> (r matches Some(v) && *v == old(self).slots()[idx as int]
                && final(self).slots() == old(self).slots().update(idx as int, *final(v))
                && final(self).wf() && final(self).spec_len() == old(self).spec_len()
                && final(self).num_bits() == old(self).num_bits() && (forall|j: int|
                0 <= j < final(self).num_bits() ==> final(self).occ(j) == old(self).occ(j))),
    {
        if self.is_vacant(idx) {
            let v = &mut self.inner[idx];
            proof {
                assert(after_borrow(self).bitmap@ == old(self).bitmap@);
                assert forall|j: int|
                    0 <= j < after_borrow(self).num_bits() implies after_borrow(self).occ(j) == old(
                    self,
                ).occ(j) by {}
            }
            Some(v)
        } else {
            None
        }
    }

    /// Replaces the element of the occupied slot `idx` and hands the previous
    /// element back.  The occupancy bits are untouched.
    pub fn replace(&mut self, idx: usize, value: T) -> (prev: T)
        requires
            old(self).wf(),
            idx < old(self).spec_len(),
            old(self).occ(idx as int),
        ensures
            final(self).wf(),
            prev == old(self).slots()[idx as int],
            final(self).slots() == old(self).slots().update(idx as int, value),
            final(self).spec_len() == old(self).spec_len(),
            final(self).num_bits() == old(self).num_bits(),
            forall|j: int|
                0 <= j < final(self).num_bits() ==> final(self).occ(j) == old(self).occ(j),
    {
        let mut v = value;
        core::mem::swap(&mut v, &mut self.inner[idx]);
        proof {
            assert(self.bitmap@ == old(self).bitmap@);
            assert forall|j: int| 0 <= j < self.num_bits() implies self.occ(j) == old(self).occ(
                j,
            ) by {}
        }
        v
    }

    /// Returns the index of the first uninhabited (free) slot below the
    /// array's length, scanning the bitmap word by word.
    pub fn get_free(&self) -> (r: Option<usize>)
        requires
            self.wf(),
        ensures
            r matches Some(i) ==> self.is_min_free(i as int),
            r is None ==> !self.has_free(),
    {
        let n = self.bitmap.len();
        let mut w: usize = 0;
        while w < n
            invariant
                self.wf(),
                w <= n,
                n == self.bitmap@.len(),
                forall|i: int| 0 <= i < w * 64 ==> #[trigger] self.occ(i),
            decreases n - w,
        {
            match lowest_clear_bit(self.bitmap[w]) {
                Some(b) => {
                    proof {
                        lemma_mul_bound(w as int, n as int);
                    }
                    let idx = w * BITS_PER_WORD + b;
                    proof {
                        assert forall|j: int| 0 <= j < idx implies #[trigger] self.occ(j) by {
                            if j >= w * 64 {
                                lemma_div_range(j, w as int);
                            }
                        }
                        lemma_div_range(idx as int, w as int);
                    }
                    if idx < self.inner.len() {
                        return Some(idx);
                    } else {
                        return None;
                    }
                },
                None => {
                    proof {
                        assert forall|i: int| 0 <= i < (w + 1) * 64 implies #[trigger] self.occ(
                            i,
                        ) by {
                            if i >= w * 64 {
                                lemma_div_range(i, w as int);
                            }
                        }
                    }
                },
            }
            w += 1;
        }
        proof {
            assert(self.spec_len() <= n * 64);
        }
        None
    }

    /// Insert an element and return its slot index: the lowest free slot is
    /// reused when one exists, and the array grows by one slot otherwise.
    pub fn insert(&mut self, element: T) -> (idx: usize)
        requires
            old(self).wf(),
            old(self).spec_len() + 64 <= usize::MAX,
        ensures
            final(self).wf(),
            idx < final(self).spec_len(),
            final(self).occ(idx as int),
            final(self).slots()[idx as int] == element,
            forall|j: int|
                0 <= j < old(self).spec_len() && j != idx ==> final(self).occ(j) == old(self).occ(
                    j,
                ),
            old(self).has_free() ==> (old(self).is_min_free(idx as int) && final(self).spec_len()
                == old(self).spec_len() && final(self).slots() == old(self).slots().update(
                idx as int,
                element,
            )),
            !old(self).has_free() ==> (idx == old(self).spec_len() && final(self).slots() == old(self).slots().push(element)),
    {
        let idx = match self.get_free() {
            Some(idx) => {
                // A free slot exists: overwrite it in place.
                self.inner[idx] = element;
                proof {
                    assert(self.bitmap@ == old(self).bitmap@);
                    assert forall|j: int| 0 <= j < self.num_bits() implies self.occ(j) == old(
                        self,
                    ).occ(j) by {}
                }
                idx
            },
            None => {
                // No free slot: append, growing the bitmap by one word if the
                // array length crosses a word boundary.
                let idx = self.inner.len();
                let ghost nwords = self.bitmap@.len() as int;
                proof {
                    lemma_div_mod_64(idx as int);
                }
                self.inner.push(element);
                if idx / BITS_PER_WORD == self.bitmap.len() {
                    proof {
                        // `idx` sits exactly at the end of the bitmap.
                        assert(idx as int >= 64 * nwords);
                        assert(idx as int == nwords * 64);
                    }
                    self.bitmap.push(0);
                    proof {
                        lemma_zero_word();
                        assert forall|i: int|
                            self.spec_len() <= i < self.num_bits() implies !self.occ(i) by {
                            lemma_div_range(i, nwords);
                            assert(self.bitmap@[nwords] == 0u64);
                        }
                    }
                } else {
                    proof {
                        // The bitmap already has a bit for `idx`.
                        if idx as int == nwords * 64 {
                            lemma_div_range(idx as int, nwords);
                        }
                        assert((idx as int) < nwords * 64);
                        assert(self.bitmap@ == old(self).bitmap@);
                        assert forall|i: int|
                            self.spec_len() <= i < self.num_bits() implies !self.occ(i) by {
                            assert(self.occ(i) == old(self).occ(i));
                            assert(!old(self).occ(i));
                        }
                    }
                }
                idx
            },
        };
        self.mark_vacant(idx);
        proof {
            if old(self).has_free() {
                assert(self.slots() =~= old(self).slots().update(idx as int, element));
            } else {
                assert(self.slots() =~= old(self).slots().push(element));
            }
        }
        idx
    }

    /// One insertion, as [`Slab::insert`]'s contract states it, performs
    /// exactly one step of the abstract occupancy model: it returns the
    /// model's index and leaves the model's occupancy, so
    /// [`lemma_reuse_before_grow`] speaks about runs of insertions on a slab.
    pub proof fn lemma_insert_models(pre: Slab<T>, post: Slab<T>, idx: int)
        requires
            pre.wf(),
            post.wf(),
            0 <= idx,
            post.occ(idx),
            pre.has_free() ==> pre.is_min_free(idx) && post.spec_len() == pre.spec_len(),
            !pre.has_free() ==> idx == pre.spec_len() && post.spec_len() == pre.spec_len() + 1,
            forall|j: int| 0 <= j < pre.spec_len() && j != idx ==> post.occ(j) == pre.occ(j),
        ensures
            idx == insert_idx(occ_seq(pre)),
            occ_seq(post) == insert_occ(occ_seq(pre)),
    {
        let o = occ_seq(pre);
        if pre.has_free() {
            let i = choose|i: int| 0 <= i < pre.spec_len() && !#[trigger] pre.occ(i);
            assert(!o[i]);
            assert(seq_has_free(o));
            lemma_min_free_from(o, 0);
            let m = min_free_from(o, 0);
            if m == o.len() {
                let i2 = choose|i2: int| 0 <= i2 < o.len() && !o[i2];
                assert(o[i2]);
                assert(false);
            }
            if m < idx {
                assert(pre.occ(m));
                assert(o[m]);
                assert(false);
            }
            if idx < m {
                assert(o[idx]);
                assert(pre.occ(idx));
                assert(false);
            }
            assert(m == idx);
            assert(occ_seq(post) =~= insert_occ(o));
        } else {
            if seq_has_free(o) {
                let i = choose|i: int| 0 <= i < o.len() && !o[i];
                assert(!pre.occ(i));
                assert(false);
            }
            assert(occ_seq(post) =~= insert_occ(o));
        }
    }

    /// Marks the slot at `idx` as free.  The stored value is not wiped; the
    /// slot becomes eligible for overwrite on the next insertion.  Freeing an
    /// already-free slot is not defined and is ruled out.
    pub fn mark_free(&mut self, idx: usize)
        requires
            old(self).wf(),
            idx < old(self).spec_len(),
            old(self).occ(idx as int),
        ensures
            final(self).wf(),
            final(self).slots() == old(self).slots(),
            final(self).spec_len() == old(self).spec_len(),
            final(self).num_bits() == old(self).num_bits(),
            !final(self).occ(idx as int),
            forall|j: int|
                0 <= j < final(self).num_bits() && j != idx ==> final(self).occ(j)
                    == old(self).occ(j),
    {
        let (map_idx, bit_idx) = self.get_bitmap_idx(idx);
        proof {
            lemma_div_mod_64(idx as int);
            lemma_div_below(idx as int, self.bitmap@.len() as int);
        }
        let b = bit_idx as u64;
        let w = self.bitmap[map_idx];
        self.bitmap[map_idx] = w & !(1u64 << b);
        proof {
            lemma_clear_bit(w, b);
            assert forall|j: int|
                0 <= j < final(self).num_bits() && j != idx implies final(self).occ(j)
                == old(self).occ(j) by {
                lemma_div_mod_64(j);
                lemma_div_mod_64(idx as int);
            }
            assert(!final(self).occ(idx as int));
            assert forall|i: int|
                final(self).spec_len() <= i < final(self).num_bits() implies !final(self).occ(i) by {
                lemma_div_mod_64(i);
                lemma_div_mod_64(idx as int);
            }
        }
    }
}

/// The slab's occupancy, one flag per backed slot.
pub open spec fn occ_seq<T>(s: Slab<T>) -> Seq<bool> {
    Seq::new(s.spec_len(), |i: int| s.occ(i))
}

/// The free indices of an occupancy sequence.
pub open spec fn free_indices(o: Seq<bool>) -> Set<int> {
    Set::new(|i: int| 0 <= i < o.len() && !o[i])
}

/// Some index of the occupancy sequence is free.
pub open spec fn seq_has_free(o: Seq<bool>) -> bool {
    exists|i: int| 0 <= i < o.len() && !o[i]
}

/// Number of free indices of an occupancy sequence.
pub open spec fn free_count(o: Seq<bool>) -> nat
    decreases o.len(),
{
    if o.len() == 0 {
        0
    } else {
        free_count(o.drop_last()) + (if o.last() {
            0nat
        } else {
            1nat
        })
    }
}

/// The lowest free index at or after `k`, or the length when there is none.
pub open spec fn min_free_from(o: Seq<bool>, k: int) -> int
    decreases o.len() - k,
    when 0 <= k <= o.len()
{
    if k < 0 || k >= o.len() {
        o.len() as int
    } else if !o[k] {
        k
    } else {
        min_free_from(o, k + 1)
    }
}

/// The index an insertion takes: the lowest free one, or the length.
pub open spec fn insert_idx(o: Seq<bool>) -> int {
    if seq_has_free(o) {
        min_free_from(o, 0)
    } else {
        o.len() as int
    }
}

/// The occupancy after one insertion.
pub open spec fn insert_occ(o: Seq<bool>) -> Seq<bool> {
    if seq_has_free(o) {
        o.update(insert_idx(o), true)
    } else {
        o.push(true)
    }
}

/// The occupancy after `n` insertions.
pub open spec fn insert_occ_n(o: Seq<bool>, n: nat) -> Seq<bool>
    decreases n,
{
    if n == 0 {
        o
    } else {
        insert_occ_n(insert_occ(o), (n - 1) as nat)
    }
}

/// The set of indices `n` insertions return.
pub open spec fn inserted_set(o: Seq<bool>, n: nat) -> Set<int>
    decreases n,
{
    if n == 0 {
        Set::empty()
    } else {
        inserted_set(insert_occ(o), (n - 1) as nat).insert(insert_idx(o))
    }
}

/// `min_free_from` returns the lowest free index at or after `k`.
proof fn lemma_min_free_from(o: Seq<bool>, k: int)
    requires
        0 <= k <= o.len(),
    ensures
        k <= min_free_from(o, k) <= o.len(),
        min_free_from(o, k) < o.len() ==> !o[min_free_from(o, k)],
        forall|j: int| k <= j < min_free_from(o, k) ==> o[j],
        min_free_from(o, k) == o.len() ==> forall|j: int| k <= j < o.len() ==> o[j],
    decreases o.len() - k,
{
    if k < o.len() && o[k] {
        lemma_min_free_from(o, k + 1);
    }
}

/// A free count of zero means no index is free, and a positive one means
/// some index is.
proof fn lemma_free_count_has_free(o: Seq<bool>)
    ensures
        free_count(o) == 0 <==> !seq_has_free(o),
    decreases o.len(),
{
    if o.len() > 0 {
        lemma_free_count_has_free(o.drop_last());
        if free_count(o) == 0 {
            assert forall|i: int| 0 <= i < o.len() implies o[i] by {
                if i < o.len() - 1 {
                    assert(!seq_has_free(o.drop_last()));
                    assert(o.drop_last()[i] == o[i]);
                }
            }
        } else {
            if !o.last() {
            } else {
                assert(free_count(o.drop_last()) > 0);
                let i = choose|i: int| 0 <= i < o.drop_last().len() && !o.drop_last()[i];
                assert(0 <= i < o.len() && !o[i]);
            }
        }
    }
}

/// Occupying a free index lowers the free count by exactly one.
proof fn lemma_free_count_update(o: Seq<bool>, i: int)
    requires
        0 <= i < o.len(),
        !o[i],
    ensures
        free_count(o.update(i, true)) == free_count(o) - 1,
    decreases o.len(),
{
    let u = o.update(i, true);
    if i == o.len() - 1 {
        assert(u.drop_last() =~= o.drop_last());
    } else {
        assert(u.drop_last() =~= o.drop_last().update(i, true));
        lemma_free_count_update(o.drop_last(), i);
    }
}

/// Reuse before grow: with `n` indices free, `n` insertions return exactly
/// the free indices, as a set, and the sequence never grows past its
/// high-water mark.
pub proof fn lemma_reuse_before_grow(o: Seq<bool>, n: nat)
    requires
        n <= free_count(o),
    ensures
        insert_occ_n(o, n).len() == o.len(),
        inserted_set(o, n).subset_of(free_indices(o)),
        n == free_count(o) ==> inserted_set(o, n) =~= free_indices(o),
    decreases n,
{
    lemma_free_count_has_free(o);
    if n > 0 {
        assert(free_count(o) > 0);
        assert(seq_has_free(o));
        let i0 = insert_idx(o);
        lemma_min_free_from(o, 0);
        assert(0 <= i0 < o.len() && !o[i0]);
        let o2 = insert_occ(o);
        assert(o2 =~= o.update(i0, true));
        lemma_free_count_update(o, i0);
        lemma_reuse_before_grow(o2, (n - 1) as nat);
        assert(free_indices(o2) =~= free_indices(o).remove(i0));
        assert(inserted_set(o, n) == inserted_set(o2, (n - 1) as nat).insert(i0));
        if n == free_count(o) {
            assert(inserted_set(o2, (n - 1) as nat) =~= free_indices(o2));
            assert(inserted_set(o, n) =~= free_indices(o));
        }
    }
}

/// Position of the lowest clear bit of `w`, or `None` when `w` is all ones.
fn lowest_clear_bit(w: u64) -> (r: Option<usize>)
    ensures
        r matches Some(b) ==> b < 64 && !word_bit(w, b as u64) && (forall|j: u64|
            j < b ==> word_bit(w, j)),
        r is None ==> forall|j: u64| j < 64 ==> word_bit(w, j),
{
    let mut b: u64 = 0;
    while b < 64
        invariant
            b <= 64,
            forall|j: u64| j < b ==> word_bit(w, j),
        decreases 64 - b,
    {
        if (w >> b) & 1u64 == 0 {
            proof {
                assert((w >> b) & 1u64 == 0 ==> !((w >> b) & 1u64 == 1u64)) by (bit_vector);
            }
            return Some(b as usize);
        }
        proof {
            assert((w >> b) & 1u64 != 0 ==> (w >> b) & 1u64 == 1u64) by (bit_vector);
        }
        b += 1;
    }
    None
}

/// Bits of the zero word are all clear.
proof fn lemma_zero_word()
    ensures
        forall|b: u64| b < 64 ==> !#[trigger] word_bit(0u64, b),
{
    assert(forall|b: u64| b < 64 ==> !((0u64 >> b) & 1u64 == 1u64)) by (bit_vector);
}

/// Testing a bit by mask equals testing it by shift.
proof fn lemma_test_bit(w: u64, b: u64)
    requires
        b < 64,
    ensures
        (w & (1u64 << b) != 0) == word_bit(w, b),
{
    assert((w & (1u64 << b) != 0) == ((w >> b) & 1u64 == 1u64)) by (bit_vector)
        requires
            b < 64,
    ;
}

/// Setting bit `b` sets exactly that bit.
proof fn lemma_set_bit(w: u64, b: u64)
    by (bit_vector)
    requires
        b < 64,
    ensures
        forall|j: u64|
            j < 64 ==> #[trigger] word_bit(w | (1u64 << b), j) == (j == b || word_bit(w, j)),
{
}

/// Clearing bit `b` clears exactly that bit.
proof fn lemma_clear_bit(w: u64, b: u64)
    by (bit_vector)
    requires
        b < 64,
    ensures
        forall|j: u64|
            j < 64 ==> #[trigger] word_bit(w & !(1u64 << b), j) == (j != b && word_bit(w, j)),
{
}

/// Division and remainder by the word width behave as expected.
proof fn lemma_div_mod_64(i: int)
    requires
        i >= 0,
    ensures
        i / 64 >= 0,
        0 <= i % 64 < 64,
        i == 64 * (i / 64) + i % 64,
{
}

/// An index below `w * 64` lands in a word below `w`.
proof fn lemma_div_below(i: int, w: int)
    requires
        0 <= i,
        i < w * 64,
    ensures
        i / 64 < w,
{
    assert(i / 64 < w) by (nonlinear_arith)
        requires
            0 <= i,
            i < w * 64,
    ;
}

/// An index inside word `w` divides back to `w`.
proof fn lemma_div_range(j: int, w: int)
    by (nonlinear_arith)
    requires
        0 <= w,
        w * 64 <= j < w * 64 + 64,
    ensures
        j / 64 == w,
        j % 64 == j - w * 64,
{
}

/// Multiplication by the word width respects strict word ordering.
proof fn lemma_mul_bound(w: int, n: int)
    by (nonlinear_arith)
    requires
        0 <= w < n,
    ensures
        w * 64 + 64 <= n * 64,
{
}

} // verus!
