use vstd::prelude::*;

use crate::bits::{all_false, bits_of, mask_get, mask_len, mask_new, mask_set, Mask};
use crate::utils::ContentHasher;
use crate::{
    insert_effect, lemma_hit_count_congruence, lemma_hit_count_le, lemma_hits_before_step,
    lemma_hits_iff_hit_count, lemma_membership_stable_under_insert, lemma_no_false_negative,
    BloomFilter, FilterModel,
};

verus! {

/// Mathematical state of a counting bloom filter: the ordered hash-function
/// set, the boolean slots of the mask, and one reference count per slot.
pub struct CountingModel<H> {
    pub hashers: Seq<H>,
    pub bits: Seq<bool>,
    pub counts: Seq<usize>,
}

/// `a + k`, stopped at the largest representable count.
pub open spec fn sat_add(a: int, k: int) -> int {
    if a + k <= usize::MAX as int {
        a + k
    } else {
        usize::MAX as int
    }
}

/// `a - k`, stopped at zero.
pub open spec fn sub_floor(a: int, k: int) -> int {
    if a >= k {
        a - k
    } else {
        0
    }
}

/// The mask that matches a counter array: a slot is set exactly when its
/// counter is positive.
pub open spec fn mask_of_counts(counts: Seq<usize>) -> Seq<bool> {
    Seq::new(counts.len(), |i: int| counts[i] > 0)
}

/// A sequence of `n` zero counters.
pub open spec fn all_zero(n: nat) -> Seq<usize> {
    Seq::new(n, |i: int| 0usize)
}

impl<H: ContentHasher> CountingModel<H> {
    /// The plain-filter part of this state: hash functions and mask.
    pub open spec fn mask_model(self) -> FilterModel<H> {
        FilterModel { hashers: self.hashers, bits: self.bits }
    }

    /// A usable counting filter keeps one counter per slot, and a slot is set
    /// exactly when its counter is positive.
    pub open spec fn wf(self) -> bool {
        &&& self.bits.len() > 0
        &&& self.hashers.len() > 0
        &&& self.counts.len() == self.bits.len()
        &&& self.bits == mask_of_counts(self.counts)
    }

    /// The slot that hash function `j` selects for the given content.
    pub open spec fn slot(self, j: int, c: Seq<char>) -> int {
        self.mask_model().slot(j, c)
    }

    /// Whether every hash function's slot for `c` is set.
    pub open spec fn may_contain(self, c: Seq<char>) -> bool {
        self.mask_model().may_contain(c)
    }

    /// How many hash functions send `c` to slot `i`.
    pub open spec fn hit_count(self, c: Seq<char>, i: int) -> nat {
        self.mask_model().hit_count(c, i)
    }

    /// Counters after the first `j` hash functions have claimed their slots
    /// for `c`, each increment stopping at the largest representable count.
    pub open spec fn counts_after_insert(self, c: Seq<char>, j: int) -> Seq<usize> {
        Seq::new(
            self.counts.len(),
            |i: int|
                sat_add(
                    self.counts[i] as int,
                    self.mask_model().hit_count_before(c, i, j) as int,
                ) as usize,
        )
    }

    /// Counters after the first `j` hash functions have released their slots
    /// for `c`, each decrement stopping at zero.
    pub open spec fn counts_after_delete(self, c: Seq<char>, j: int) -> Seq<usize> {
        Seq::new(
            self.counts.len(),
            |i: int|
                sub_floor(
                    self.counts[i] as int,
                    self.mask_model().hit_count_before(c, i, j) as int,
                ) as usize,
        )
    }
}

/// How one insert changes a counting filter: the hash-function set stays
/// fixed, every selected slot is set, and every selected slot's counter rises
/// by the number of hash functions selecting it, stopping at the largest
/// representable count.
pub open spec fn insert_effect_counting<H: ContentHasher>(
    pre: CountingModel<H>,
    post: CountingModel<H>,
    c: Seq<char>,
) -> bool {
    &&& post.hashers == pre.hashers
    &&& post.bits == pre.mask_model().bits_after_insert(c, pre.hashers.len() as int)
    &&& post.counts == pre.counts_after_insert(c, pre.hashers.len() as int)
}

/// How one delete changes a counting filter: the hash-function set stays
/// fixed, every selected slot's counter falls by the number of hash functions
/// selecting it, stopping at zero, and the mask afterwards matches the
/// counters.
pub open spec fn delete_effect<H: ContentHasher>(
    pre: CountingModel<H>,
    post: CountingModel<H>,
    c: Seq<char>,
) -> bool {
    &&& post.hashers == pre.hashers
    &&& post.counts == pre.counts_after_delete(c, pre.hashers.len() as int)
    &&& post.bits == mask_of_counts(post.counts)
}

/// Law: content just inserted into a counting filter is reported present,
/// and the mask still matches the counters.
pub proof fn lemma_counting_no_false_negative<H: ContentHasher>(
    pre: CountingModel<H>,
    post: CountingModel<H>,
    c: Seq<char>,
)
    requires
        pre.wf(),
        insert_effect_counting(pre, post, c),
    ensures
        post.wf(),
        post.may_contain(c),
{
    let len = pre.hashers.len() as int;
    assert(insert_effect(pre.mask_model(), post.mask_model(), c)) by {
        assert forall|i: int|
            0 <= i < pre.bits.len() implies post.bits[i] == (pre.bits[i]
            || pre.mask_model().hits(c, i)) by {
            assert(post.bits[i] == pre.mask_model().bits_after_insert(c, len)[i]);
        }
    }
    lemma_no_false_negative(pre.mask_model(), post.mask_model(), c);
    assert(post.bits =~= mask_of_counts(post.counts)) by {
        assert forall|i: int| 0 <= i < post.bits.len() implies post.bits[i] == (post.counts[i]
            > 0) by {
            lemma_hits_iff_hit_count(pre.mask_model(), c, i, len);
            assert(post.counts[i] == pre.counts_after_insert(c, len)[i]);
            assert(post.bits[i] == pre.mask_model().bits_after_insert(c, len)[i]);
            assert(pre.bits[i] == mask_of_counts(pre.counts)[i]);
        }
    }
}

/// Law: content reported present by a counting filter stays present across
/// any later insert.
pub proof fn lemma_counting_stable_under_insert<H: ContentHasher>(
    pre: CountingModel<H>,
    post: CountingModel<H>,
    c: Seq<char>,
    d: Seq<char>,
)
    requires
        pre.wf(),
        pre.may_contain(c),
        insert_effect_counting(pre, post, d),
    ensures
        post.may_contain(c),
{
    let len = pre.hashers.len() as int;
    assert(insert_effect(pre.mask_model(), post.mask_model(), d)) by {
        assert forall|i: int|
            0 <= i < pre.bits.len() implies post.bits[i] == (pre.bits[i]
            || pre.mask_model().hits(d, i)) by {
            assert(post.bits[i] == pre.mask_model().bits_after_insert(d, len)[i]);
        }
    }
    lemma_membership_stable_under_insert(pre.mask_model(), post.mask_model(), c, d);
}

/// Law: a delete leaves `c` present as long as every slot that `c` selects
/// keeps a positive counter afterwards.
pub proof fn lemma_counting_stable_under_delete<H: ContentHasher>(
    pre: CountingModel<H>,
    post: CountingModel<H>,
    c: Seq<char>,
    d: Seq<char>,
)
    requires
        pre.wf(),
        delete_effect(pre, post, d),
        forall|j: int|
            0 <= j < pre.hashers.len() ==> pre.counts[#[trigger] pre.slot(j, c)] > pre.hit_count(
                d,
                pre.slot(j, c),
            ),
    ensures
        post.may_contain(c),
{
    let len = pre.hashers.len() as int;
    assert forall|j: int|
        0 <= j < post.hashers.len() implies post.bits[
        #[trigger] post.mask_model().slot(j, c)
    ] by {
        let i = pre.slot(j, c);
        assert(0 <= i < pre.bits.len());
        assert(post.counts[i] == pre.counts_after_delete(d, len)[i]);
        lemma_hit_count_congruence(pre.mask_model(), post.mask_model(), d, i, len);
        assert(post.counts[i] > 0);
        assert(post.bits[i] == mask_of_counts(post.counts)[i]);
        assert(post.mask_model().slot(j, c) == i);
    }
}

/// Law: after inserting `c` twice, one delete leaves `c` present; a second
/// delete removes it whenever some slot of `c` held no other content at the
/// start. The bound on the hash-function count keeps the counters away from
/// saturation.
pub proof fn lemma_reference_counting<H: ContentHasher>(
    s0: CountingModel<H>,
    s1: CountingModel<H>,
    s2: CountingModel<H>,
    s3: CountingModel<H>,
    s4: CountingModel<H>,
    c: Seq<char>,
)
    requires
        s0.wf(),
        2 * s0.hashers.len() <= usize::MAX,
        insert_effect_counting(s0, s1, c),
        insert_effect_counting(s1, s2, c),
        delete_effect(s2, s3, c),
        delete_effect(s3, s4, c),
    ensures
        s3.may_contain(c),
        (exists|j: int|
            0 <= j < s0.hashers.len() && s0.counts[#[trigger] s0.slot(j, c)] == 0)
            ==> !s4.may_contain(c),
{
    let len = s0.hashers.len() as int;
    lemma_counting_no_false_negative(s0, s1, c);
    lemma_counting_no_false_negative(s1, s2, c);
    assert(s3.hashers == s0.hashers && s4.hashers == s0.hashers);
    assert(s3.bits.len() == s0.bits.len() && s4.bits.len() == s0.bits.len());
    assert forall|j: int|
        0 <= j < s3.hashers.len() implies s3.bits[#[trigger] s3.mask_model().slot(j, c)] by {
        let i = s0.slot(j, c);
        assert(0 <= i < s0.bits.len());
        let k = s0.mask_model().hit_count(c, i);
        assert(k >= 1) by {
            lemma_hits_iff_hit_count(s0.mask_model(), c, i, len);
            assert(0 <= j < len && s0.mask_model().slot(j, c) == i);
        }
        lemma_hit_count_le(s0.mask_model(), c, i, len);
        lemma_hit_count_congruence(s0.mask_model(), s1.mask_model(), c, i, len);
        lemma_hit_count_congruence(s0.mask_model(), s2.mask_model(), c, i, len);
        assert(s1.counts[i] == s0.counts_after_insert(c, len)[i]);
        assert(s2.counts[i] == s1.counts_after_insert(c, len)[i]);
        assert(s3.counts[i] == s2.counts_after_delete(c, len)[i]);
        assert(s3.counts[i] > 0);
        assert(s3.bits[i] == mask_of_counts(s3.counts)[i]);
        assert(s3.mask_model().slot(j, c) == i);
    }
    if exists|j: int| 0 <= j < s0.hashers.len() && s0.counts[#[trigger] s0.slot(j, c)] == 0 {
        let j0 = choose|j: int|
            0 <= j < s0.hashers.len() && s0.counts[#[trigger] s0.slot(j, c)] == 0;
        let i = s0.slot(j0, c);
        assert(0 <= i < s0.bits.len());
        let k = s0.mask_model().hit_count(c, i);
        assert(k >= 1) by {
            lemma_hits_iff_hit_count(s0.mask_model(), c, i, len);
            assert(0 <= j0 < len && s0.mask_model().slot(j0, c) == i);
        }
        lemma_hit_count_le(s0.mask_model(), c, i, len);
        lemma_hit_count_congruence(s0.mask_model(), s1.mask_model(), c, i, len);
        lemma_hit_count_congruence(s0.mask_model(), s2.mask_model(), c, i, len);
        lemma_hit_count_congruence(s0.mask_model(), s3.mask_model(), c, i, len);
        assert(s1.counts[i] == s0.counts_after_insert(c, len)[i]);
        assert(s2.counts[i] == s1.counts_after_insert(c, len)[i]);
        assert(s3.counts[i] == s2.counts_after_delete(c, len)[i]);
        assert(s4.counts[i] == s3.counts_after_delete(c, len)[i]);
        assert(s4.counts[i] == 0);
        assert(s4.bits[i] == mask_of_counts(s4.counts)[i]);
        assert(s4.mask_model().slot(j0, c) == i);
        assert(!s4.bits[s4.mask_model().slot(j0, c)]);
    }
}

/// Law: a downgrade changes no membership answer: the plain filter reports
/// content present exactly when the counting filter did, over the same slot
/// count and hash-function set.
pub proof fn lemma_downgrade_fidelity<H: ContentHasher>(
    pre: CountingModel<H>,
    post: FilterModel<H>,
    c: Seq<char>,
)
    requires
        post == pre.mask_model(),
    ensures
        post.may_contain(c) == pre.may_contain(c),
        post.bits.len() == pre.bits.len(),
        post.hashers.len() == pre.hashers.len(),
{
}

/// Counting bloom filter: a plain bloom filter plus one reference count per
/// slot, which makes deletion possible.
pub struct CountingBloomFilter<H: ContentHasher> {
    hashers: Vec<H>,
    mask: Mask,
    counter: Vec<usize>,
}

impl<H: ContentHasher> View for CountingBloomFilter<H> {
    type V = CountingModel<H>;

    closed spec fn view(&self) -> CountingModel<H> {
        CountingModel {
            hashers: self.hashers@,
            bits: bits_of(self.mask),
            counts: self.counter@,
        }
    }
}

impl<H: ContentHasher> CountingBloomFilter<H> {
    /// Build a new instance of a counting bloom filter with every slot
    /// cleared and every counter at zero.
    pub fn new(bit_size: usize, hashers: Vec<H>) -> (r: Self)
        requires
            bit_size > 0,
            hashers@.len() > 0,
        ensures
            r@.wf(),
            r@.hashers == hashers@,
            r@.bits == all_false(bit_size as nat),
            r@.counts == all_zero(bit_size as nat),
    {
        let mask = mask_new(bit_size);
        let mut counter: Vec<usize> = Vec::new();
        let mut i: usize = 0;
        while i < bit_size
            invariant
                i <= bit_size,
                counter@.len() == i as nat,
                forall|k: int| 0 <= k < i ==> counter@[k] == 0,
            decreases bit_size - i,
        {
            counter.push(0);
            i = i + 1;
        }
        let r = CountingBloomFilter { hashers, mask, counter };
        proof {
            assert(r@.counts =~= all_zero(bit_size as nat));
            assert(r@.bits =~= mask_of_counts(r@.counts));
        }
        r
    }

    /// Get the size of the underlying bit mask.
    pub fn bit_size(&self) -> (r: usize)
        ensures
            r == self@.bits.len(),
    {
        mask_len(&self.mask)
    }

    /// Get the total number of hash functions.
    pub fn total_hashers(&self) -> (r: usize)
        ensures
            r == self@.hashers.len(),
    {
        self.hashers.len()
    }

    /// Insert the content: set the slot each hash function selects and raise
    /// that slot's counter, stopping at the largest representable count.
    pub fn insert(&mut self, content: &str)
        requires
            old(self)@.wf(),
        ensures
            final(self)@.wf(),
            insert_effect_counting(old(self)@, final(self)@, content@),
            final(self)@.may_contain(content@),
    {
        let ghost pre = self@;
        let n = mask_len(&self.mask);
        let total = self.hashers.len();
        let mut j: usize = 0;
        proof {
            assert(self@.bits =~= pre.mask_model().bits_after_insert(content@, 0));
            assert(self@.counts =~= pre.counts_after_insert(content@, 0));
        }
        while j < total
            invariant
                pre.wf(),
                j <= total,
                total == self@.hashers.len(),
                total == pre.hashers.len(),
                n == self@.bits.len(),
                n == self@.counts.len(),
                n == pre.bits.len(),
                self@.hashers == pre.hashers,
                self@.bits == pre.mask_model().bits_after_insert(content@, j as int),
                self@.counts == pre.counts_after_insert(content@, j as int),
            decreases total - j,
        {
            let hv = crate::utils::hash(&self.hashers[j], content);
            let idx = (hv % (n as u64)) as usize;
            proof {
                assert(idx as int == pre.mask_model().slot(j as int, content@));
                assert(self@.counts[idx as int] == pre.counts_after_insert(
                    content@,
                    j as int,
                )[idx as int]);
            }
            let cur = self.counter[idx];
            let nv = if cur == usize::MAX {
                cur
            } else {
                cur + 1
            };
            let ghost mid = self@;
            self.counter[idx] = nv;
            mask_set(&mut self.mask, idx, true);
            proof {
                assert(self@.counts == mid.counts.update(idx as int, nv));
                assert(self@.bits == mid.bits.update(idx as int, true));
                assert forall|i: int|
                    0 <= i < n implies self@.counts[i] as int == sat_add(
                    pre.counts[i] as int,
                    pre.mask_model().hit_count_before(content@, i, j as int + 1) as int,
                ) by {
                    assert(mid.counts[i] == pre.counts_after_insert(content@, j as int)[i]);
                    assert(pre.mask_model().hit_count_before(content@, i, j as int + 1)
                        == pre.mask_model().hit_count_before(content@, i, j as int) + (
                    if pre.mask_model().slot(j as int, content@) == i {
                        1nat
                    } else {
                        0nat
                    }));
                }
                assert(self@.counts =~= pre.counts_after_insert(content@, j as int + 1));
                assert forall|i: int|
                    0 <= i < n implies self@.bits[i] == (pre.bits[i]
                    || pre.mask_model().hits_before(content@, i, j as int + 1)) by {
                    lemma_hits_before_step(pre.mask_model(), content@, i, j as int);
                    assert(mid.bits[i] == pre.mask_model().bits_after_insert(
                        content@,
                        j as int,
                    )[i]);
                    if i == idx as int {
                        assert(pre.mask_model().slot(j as int, content@) == i);
                    }
                }
                assert(self@.bits =~= pre.mask_model().bits_after_insert(
                    content@,
                    j as int + 1,
                ));
            }
            j = j + 1;
        }
        proof {
            assert(insert_effect_counting(pre, self@, content@));
            lemma_counting_no_false_negative(pre, self@, content@);
        }
    }

    /// Check if the content probably exists in the filter. Only the mask is
    /// examined; the counters play no part in the answer.
    ///
    /// Returns `false` if it was never inserted; `true` means it was inserted
    /// or every slot it selects is shared with other content.
    pub fn check(&mut self, content: &str) -> (r: bool)
        requires
            old(self)@.wf(),
        ensures
            *final(self) == *old(self),
            r == old(self)@.may_contain(content@),
    {
        let n = mask_len(&self.mask);
        let total = self.hashers.len();
        let mut j: usize = 0;
        while j < total
            invariant
                self@.wf(),
                j <= total,
                total == self@.hashers.len(),
                n == self@.bits.len(),
                forall|j0: int|
                    0 <= j0 < j ==> self@.bits[#[trigger] self@.mask_model().slot(j0, content@)],
            decreases total - j,
        {
            let hv = crate::utils::hash(&self.hashers[j], content);
            let idx = (hv % (n as u64)) as usize;
            proof {
                assert(idx as int == self@.mask_model().slot(j as int, content@));
            }
            if !mask_get(&self.mask, idx) {
                return false;
            }
            j = j + 1;
        }
        true
    }

    /// Delete one occurrence of the content: lower the counter of each
    /// selected slot, skipping counters already at zero, and clear the slot
    /// when its counter reaches zero. Deleting content never inserted is
    /// absorbed by the zero guard and is not an error.
    pub fn delete(&mut self, content: &str)
        requires
            old(self)@.wf(),
        ensures
            final(self)@.wf(),
            delete_effect(old(self)@, final(self)@, content@),
    {
        let ghost pre = self@;
        let n = mask_len(&self.mask);
        let total = self.hashers.len();
        let mut j: usize = 0;
        proof {
            assert(pre.counts_after_delete(content@, 0) =~= pre.counts);
            assert(self@.bits == mask_of_counts(self@.counts));
        }
        while j < total
            invariant
                pre.wf(),
                j <= total,
                total == self@.hashers.len(),
                total == pre.hashers.len(),
                n == self@.bits.len(),
                n == self@.counts.len(),
                n == pre.bits.len(),
                self@.hashers == pre.hashers,
                self@.counts == pre.counts_after_delete(content@, j as int),
                self@.bits == mask_of_counts(self@.counts),
            decreases total - j,
        {
            let hv = crate::utils::hash(&self.hashers[j], content);
            let idx = (hv % (n as u64)) as usize;
            proof {
                assert(idx as int == pre.mask_model().slot(j as int, content@));
                assert(self@.counts[idx as int] == pre.counts_after_delete(
                    content@,
                    j as int,
                )[idx as int]);
            }
            let cur = self.counter[idx];
            let ghost mid = self@;
            if cur > 0 {
                let nv = cur - 1;
                self.counter[idx] = nv;
                if nv == 0 {
                    mask_set(&mut self.mask, idx, false);
                }
            }
            proof {
                assert forall|i: int|
                    0 <= i < n implies self@.counts[i] as int == sub_floor(
                    pre.counts[i] as int,
                    pre.mask_model().hit_count_before(content@, i, j as int + 1) as int,
                ) by {
                    assert(mid.counts[i] == pre.counts_after_delete(content@, j as int)[i]);
                    assert(pre.mask_model().hit_count_before(content@, i, j as int + 1)
                        == pre.mask_model().hit_count_before(content@, i, j as int) + (
                    if pre.mask_model().slot(j as int, content@) == i {
                        1nat
                    } else {
                        0nat
                    }));
                }
                assert(self@.counts =~= pre.counts_after_delete(content@, j as int + 1));
                assert forall|i: int| 0 <= i < n implies self@.bits[i] == (self@.counts[i]
                    > 0) by {
                    assert(mid.bits[i] == mask_of_counts(mid.counts)[i]);
                }
                assert(self@.bits =~= mask_of_counts(self@.counts));
            }
            j = j + 1;
        }
        proof {
            assert(delete_effect(pre, self@, content@));
        }
    }

    /// One-way conversion into a plain bloom filter: the mask and the
    /// hash-function set carry over verbatim, the counters are discarded, and
    /// the counting instance is consumed.
    pub fn downgrade(self) -> (r: BloomFilter<H>)
        ensures
            r@ == self@.mask_model(),
    {
        BloomFilter::from_parts(self.hashers, self.mask)
    }
}

} // verus!
