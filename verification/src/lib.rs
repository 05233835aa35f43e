mod bits;
pub mod sample;
pub mod utils;
mod variants;

pub use crate::variants::counting_bloom::{
    delete_effect, insert_effect_counting, lemma_counting_no_false_negative,
    lemma_counting_stable_under_delete, lemma_counting_stable_under_insert,
    lemma_downgrade_fidelity, lemma_reference_counting, CountingBloomFilter, CountingModel,
};

use vstd::prelude::*;

use crate::bits::{all_false, bits_of, mask_get, mask_len, mask_new, mask_set, Mask};
use crate::utils::ContentHasher;

verus! {

/// Error returned when a filter parameter lies outside its documented domain.
#[derive(Clone, Copy, Debug, PartialEq, Eq, Structural)]
pub enum FilterError {
    InvalidParameter,
}

/// Mathematical state of a plain bloom filter: the ordered hash-function set
/// and the boolean slots of the mask.
pub struct FilterModel<H> {
    pub hashers: Seq<H>,
    pub bits: Seq<bool>,
}

impl<H: ContentHasher> FilterModel<H> {
    /// A usable filter has at least one slot and at least one hash function.
    pub open spec fn wf(self) -> bool {
        self.bits.len() > 0 && self.hashers.len() > 0
    }

    /// The slot that hash function `j` selects for the given content.
    pub open spec fn slot(self, j: int, c: Seq<char>) -> int {
        self.hashers[j].hash_spec(c) as int % self.bits.len() as int
    }

    /// Whether every hash function's slot for `c` is set: the filter's answer
    /// to a membership check.
    pub open spec fn may_contain(self, c: Seq<char>) -> bool {
        forall|j: int|
            0 <= j < self.hashers.len() ==> self.bits[#[trigger] self.slot(j, c)]
    }

    /// Whether one of the first `j` hash functions sends `c` to slot `i`.
    pub open spec fn hits_before(self, c: Seq<char>, i: int, j: int) -> bool {
        exists|j0: int| 0 <= j0 < j && #[trigger] self.slot(j0, c) == i
    }

    /// Whether some hash function sends `c` to slot `i`.
    pub open spec fn hits(self, c: Seq<char>, i: int) -> bool {
        self.hits_before(c, i, self.hashers.len() as int)
    }

    /// The mask after the first `j` hash functions have set their slots
    /// for `c`.
    pub open spec fn bits_after_insert(self, c: Seq<char>, j: int) -> Seq<bool> {
        Seq::new(self.bits.len(), |i: int| self.bits[i] || self.hits_before(c, i, j))
    }

    /// How many of the first `j` hash functions send `c` to slot `i`.
    pub open spec fn hit_count_before(self, c: Seq<char>, i: int, j: int) -> nat
        decreases j,
    {
        if j <= 0 {
            0
        } else {
            self.hit_count_before(c, i, j - 1) + (if self.slot(j - 1, c) == i {
                1nat
            } else {
                0nat
            })
        }
    }

    /// How many hash functions send `c` to slot `i`.
    pub open spec fn hit_count(self, c: Seq<char>, i: int) -> nat {
        self.hit_count_before(c, i, self.hashers.len() as int)
    }
}

/// Some of the first `j` hash functions hit slot `i` exactly when the count
/// of such hits is positive.
pub proof fn lemma_hits_iff_hit_count<H: ContentHasher>(
    m: FilterModel<H>,
    c: Seq<char>,
    i: int,
    j: int,
)
    requires
        j >= 0,
    ensures
        m.hits_before(c, i, j) <==> m.hit_count_before(c, i, j) > 0,
    decreases j,
{
    if j > 0 {
        lemma_hits_iff_hit_count(m, c, i, j - 1);
        lemma_hits_before_step(m, c, i, j - 1);
    }
}

/// No slot is hit more often than there are hash functions.
pub proof fn lemma_hit_count_le<H: ContentHasher>(m: FilterModel<H>, c: Seq<char>, i: int, j: int)
    requires
        j >= 0,
    ensures
        m.hit_count_before(c, i, j) <= j,
    decreases j,
{
    if j > 0 {
        lemma_hit_count_le(m, c, i, j - 1);
    }
}

/// Hit counts depend only on the hash-function set and the slot count.
pub proof fn lemma_hit_count_congruence<H: ContentHasher>(
    a: FilterModel<H>,
    b: FilterModel<H>,
    c: Seq<char>,
    i: int,
    j: int,
)
    requires
        a.hashers == b.hashers,
        a.bits.len() == b.bits.len(),
        j >= 0,
    ensures
        a.hit_count_before(c, i, j) == b.hit_count_before(c, i, j),
    decreases j,
{
    if j > 0 {
        lemma_hit_count_congruence(a, b, c, i, j - 1);
        assert(a.slot(j - 1, c) == b.slot(j - 1, c));
    }
}

/// How one insert changes a plain filter: the hash-function set and the slot
/// count stay fixed, and a slot is set afterwards exactly when it was already
/// set or the inserted content selects it.
pub open spec fn insert_effect<H: ContentHasher>(
    pre: FilterModel<H>,
    post: FilterModel<H>,
    c: Seq<char>,
) -> bool {
    &&& post.hashers == pre.hashers
    &&& post.bits.len() == pre.bits.len()
    &&& forall|i: int|
        0 <= i < pre.bits.len() ==> post.bits[i] == (pre.bits[i] || pre.hits(c, i))
}

/// One of the first `j + 1` hash functions hits `i` exactly when one of the
/// first `j` does or function `j` itself does.
pub proof fn lemma_hits_before_step<H: ContentHasher>(
    m: FilterModel<H>,
    c: Seq<char>,
    i: int,
    j: int,
)
    requires
        j >= 0,
    ensures
        m.hits_before(c, i, j + 1) == (m.hits_before(c, i, j) || m.slot(j, c) == i),
{
    if m.hits_before(c, i, j + 1) {
        let j0 = choose|j0: int| 0 <= j0 < j + 1 && #[trigger] m.slot(j0, c) == i;
        if j0 < j {
            assert(m.hits_before(c, i, j));
        }
    }
    if m.slot(j, c) == i {
        assert(0 <= j < j + 1 && m.slot(j, c) == i);
    }
}

/// Law: content just inserted is reported present by a check.
pub proof fn lemma_no_false_negative<H: ContentHasher>(
    pre: FilterModel<H>,
    post: FilterModel<H>,
    c: Seq<char>,
)
    requires
        pre.wf(),
        insert_effect(pre, post, c),
    ensures
        post.wf(),
        post.may_contain(c),
{
    assert forall|j: int| 0 <= j < post.hashers.len() implies post.bits[
        #[trigger] post.slot(j, c)
    ] by {
        let i = pre.slot(j, c);
        assert(0 <= i < pre.bits.len());
        assert(pre.hits(c, i)) by {
            assert(0 <= j < pre.hashers.len() as int && pre.slot(j, c) == i);
        }
        assert(post.slot(j, c) == i);
    }
}

/// Law: content reported present stays present across any later insert.
pub proof fn lemma_membership_stable_under_insert<H: ContentHasher>(
    pre: FilterModel<H>,
    post: FilterModel<H>,
    c: Seq<char>,
    d: Seq<char>,
)
    requires
        pre.wf(),
        pre.may_contain(c),
        insert_effect(pre, post, d),
    ensures
        post.may_contain(c),
{
    assert forall|j: int| 0 <= j < post.hashers.len() implies post.bits[
        #[trigger] post.slot(j, c)
    ] by {
        let i = pre.slot(j, c);
        assert(0 <= i < pre.bits.len());
        assert(pre.bits[pre.slot(j, c)]);
        assert(post.slot(j, c) == i);
    }
}

/// Plain bloom filter: a fixed bit mask and a fixed ordered set of hash
/// functions. Supports insert and check; nothing is ever removed.
pub struct BloomFilter<H: ContentHasher> {
    hashers: Vec<H>,
    mask: Mask,
}

impl<H: ContentHasher> View for BloomFilter<H> {
    type V = FilterModel<H>;

    closed spec fn view(&self) -> FilterModel<H> {
        FilterModel { hashers: self.hashers@, bits: bits_of(self.mask) }
    }
}

impl<H: ContentHasher> BloomFilter<H> {
    /// Build a new instance of a bloom filter with every slot cleared.
    pub fn new(bit_size: usize, hashers: Vec<H>) -> (r: Self)
        requires
            bit_size > 0,
            hashers@.len() > 0,
        ensures
            r@.wf(),
            r@.hashers == hashers@,
            r@.bits == all_false(bit_size as nat),
    {
        BloomFilter { hashers, mask: mask_new(bit_size) }
    }

    /// Wrap an already-filled mask and hash-function set as a plain filter.
    pub(crate) fn from_parts(hashers: Vec<H>, mask: Mask) -> (r: Self)
        ensures
            r@.hashers == hashers@,
            r@.bits == bits_of(mask),
    {
        BloomFilter { hashers, mask }
    }

    /// Get the size of the underlying bit mask.
    pub fn bit_size(&self) -> (r: usize)
        ensures
            r == self@.bits.len(),
    {
        mask_len(&self.mask)
    }

    /// Get the total number of hash functions.
    pub fn total_hashers(&self) -> (r: usize)
        ensures
            r == self@.hashers.len(),
    {
        self.hashers.len()
    }

    /// Insert the content into the bloom filter: set the slot that each hash
    /// function selects for it.
    pub fn insert(&mut self, content: &str)
        requires
            old(self)@.wf(),
        ensures
            final(self)@.wf(),
            insert_effect(old(self)@, final(self)@, content@),
            final(self)@.may_contain(content@),
    {
        let ghost pre = self@;
        let n = mask_len(&self.mask);
        let total = self.hashers.len();
        let mut j: usize = 0;
        proof {
            assert(self@.bits =~= pre.bits_after_insert(content@, 0));
        }
        while j < total
            invariant
                pre.wf(),
                j <= total,
                total == self@.hashers.len(),
                n == self@.bits.len(),
                self@.hashers == pre.hashers,
                self@.bits == pre.bits_after_insert(content@, j as int),
            decreases total - j,
        {
            let hv = crate::utils::hash(&self.hashers[j], content);
            let idx = (hv % (n as u64)) as usize;
            proof {
                assert(idx as int == pre.slot(j as int, content@));
            }
            let ghost mid = self@;
            mask_set(&mut self.mask, idx, true);
            proof {
                assert(self@.bits == mid.bits.update(idx as int, true));
                assert forall|i: int|
                    0 <= i < pre.bits.len() implies mid.bits.update(idx as int, true)[i]
                    == pre.bits_after_insert(content@, j as int + 1)[i] by {
                    lemma_hits_before_step(pre, content@, i, j as int);
                    if i == idx as int {
                        assert(pre.slot(j as int, content@) == i);
                    }
                }
                assert(self@.bits =~= pre.bits_after_insert(content@, j as int + 1));
            }
            j = j + 1;
        }
        proof {
            assert forall|i: int|
                0 <= i < pre.bits.len() implies self@.bits[i] == (pre.bits[i] || pre.hits(
                content@,
                i,
            )) by {
                assert(self@.bits[i] == pre.bits_after_insert(content@, total as int)[i]);
            }
            assert(insert_effect(pre, self@, content@));
            lemma_no_false_negative(pre, self@, content@);
        }
    }

    /// Check if the content probably exists in the filter.
    ///
    /// Returns `false` if it was never inserted; `true` means it was inserted
    /// or every slot it selects is shared with other content.
    pub fn check(&mut self, content: &str) -> (r: bool)
        requires
            old(self)@.wf(),
        ensures
            *final(self) == *old(self),
            r == old(self)@.may_contain(content@),
    {
        let n = mask_len(&self.mask);
        let total = self.hashers.len();
        let mut j: usize = 0;
        while j < total
            invariant
                self@.wf(),
                j <= total,
                total == self@.hashers.len(),
                n == self@.bits.len(),
                forall|j0: int| 0 <= j0 < j ==> self@.bits[#[trigger] self@.slot(j0, content@)],
            decreases total - j,
        {
            let hv = crate::utils::hash(&self.hashers[j], content);
            let idx = (hv % (n as u64)) as usize;
            proof {
                assert(idx as int == self@.slot(j as int, content@));
            }
            if !mask_get(&self.mask, idx) {
                return false;
            }
            j = j + 1;
        }
        true
    }
}

} // verus!
