//! The feed-polling side: the set of content hashes already seen, the
//! deduplication of each fetched batch, and the bounded startup retry
//! policy. Fetching itself is I/O and lives outside the library; this
//! module receives the fetched batch as a value.

use vstd::prelude::*;
use crate::strutil::str_eq;
use crate::images::{ImageResponse, ImageView, imgs_view};

verus! {

/// Adding one hash to the seen set: a no-op when it is already there.
pub open spec fn insert_hash(seen: Seq<Seq<char>>, h: Seq<char>) -> Seq<Seq<char>> {
    if seen.contains(h) {
        seen
    } else {
        seen.push(h)
    }
}

/// The seen set after a whole batch has been folded in, first image first.
pub open spec fn absorb(seen: Seq<Seq<char>>, batch: Seq<ImageView>) -> Seq<Seq<char>>
    decreases batch.len(),
{
    if batch.len() == 0 {
        seen
    } else {
        absorb(insert_hash(seen, batch[0].sha512_hash), batch.drop_first())
    }
}

/// The images of a batch whose content hash has not been seen before,
/// in batch order; a hash repeated inside the batch counts as seen from
/// its first occurrence on.
pub open spec fn fresh_images(seen: Seq<Seq<char>>, batch: Seq<ImageView>) -> Seq<ImageView>
    decreases batch.len(),
{
    if batch.len() == 0 {
        Seq::empty()
    } else if seen.contains(batch[0].sha512_hash) {
        fresh_images(seen, batch.drop_first())
    } else {
        seq![batch[0]] + fresh_images(
            insert_hash(seen, batch[0].sha512_hash),
            batch.drop_first(),
        )
    }
}

/// No hash occurs twice.
pub open spec fn distinct_hashes(s: Seq<Seq<char>>) -> bool {
    forall|i: int, j: int| 0 <= i < j < s.len() ==> s[i] != s[j]
}

/// A prefix keeps its members.
pub proof fn lemma_prefix_contains(s1: Seq<Seq<char>>, s2: Seq<Seq<char>>, h: Seq<char>)
    requires
        s1.is_prefix_of(s2),
        s1.contains(h),
    ensures
        s2.contains(h),
{
    let k = choose|k: int| 0 <= k < s1.len() && s1[k] == h;
    assert(s2[k] == s1.subrange(0, s1.len() as int)[k]);
}

/// Prefixes chain.
proof fn lemma_prefix_trans(a: Seq<Seq<char>>, b: Seq<Seq<char>>, c: Seq<Seq<char>>)
    requires
        a.is_prefix_of(b),
        b.is_prefix_of(c),
    ensures
        a.is_prefix_of(c),
{
    assert forall|i: int| 0 <= i < a.len() implies c.subrange(0, a.len() as int)[i] == a[i] by {
        assert(b.subrange(0, a.len() as int)[i] == a[i]);
        assert(c.subrange(0, b.len() as int)[i] == b[i]);
    }
    assert(c.subrange(0, a.len() as int) =~= a);
}

/// Law: the seen set only grows; what a batch adds comes after what was
/// already there.
pub proof fn lemma_absorb_grows(seen: Seq<Seq<char>>, batch: Seq<ImageView>)
    ensures
        seen.is_prefix_of(absorb(seen, batch)),
    decreases batch.len(),
{
    if batch.len() == 0 {
        assert(absorb(seen, batch).subrange(0, seen.len() as int) =~= seen);
    } else {
        let s1 = insert_hash(seen, batch[0].sha512_hash);
        assert(seen.is_prefix_of(s1)) by {
            assert(s1.subrange(0, seen.len() as int) =~= seen);
        }
        lemma_absorb_grows(s1, batch.drop_first());
        lemma_prefix_trans(seen, s1, absorb(s1, batch.drop_first()));
    }
}

/// Law: nothing the deduplicator lets through was seen before the batch.
pub proof fn lemma_fresh_not_seen(seen: Seq<Seq<char>>, batch: Seq<ImageView>)
    ensures
        forall|i: int|
            0 <= i < fresh_images(seen, batch).len() ==> !seen.contains(
                (#[trigger] fresh_images(seen, batch)[i]).sha512_hash,
            ),
    decreases batch.len(),
{
    if batch.len() > 0 {
        let rest = batch.drop_first();
        let h0 = batch[0].sha512_hash;
        if seen.contains(h0) {
            lemma_fresh_not_seen(seen, rest);
            assert forall|i: int| 0 <= i < fresh_images(seen, batch).len() implies !seen.contains(
                (#[trigger] fresh_images(seen, batch)[i]).sha512_hash,
            ) by {
                assert(fresh_images(seen, batch)[i] == fresh_images(seen, rest)[i]);
            }
        } else {
            let s1 = insert_hash(seen, h0);
            lemma_fresh_not_seen(s1, rest);
            assert forall|i: int| 0 <= i < fresh_images(seen, batch).len() implies !seen.contains(
                (#[trigger] fresh_images(seen, batch)[i]).sha512_hash,
            ) by {
                if i == 0 {
                    assert(fresh_images(seen, batch)[0] == batch[0]);
                }
                if i > 0 {
                    let f = fresh_images(seen, batch)[i];
                    assert(f == fresh_images(s1, rest)[i - 1]);
                    assert(!s1.contains(f.sha512_hash));
                    if seen.contains(f.sha512_hash) {
                        let k = choose|k: int| 0 <= k < seen.len() && seen[k] == f.sha512_hash;
                        assert(s1[k] == f.sha512_hash);
                    }
                }
            }
        }
    }
}

/// Law: the deduplicator never lets the same content hash through twice
/// within one batch.
pub proof fn lemma_fresh_distinct(seen: Seq<Seq<char>>, batch: Seq<ImageView>)
    ensures
        forall|i: int, j: int|
            0 <= i < j < fresh_images(seen, batch).len() ==> (#[trigger] fresh_images(
                seen,
                batch,
            )[i]).sha512_hash != (#[trigger] fresh_images(seen, batch)[j]).sha512_hash,
    decreases batch.len(),
{
    if batch.len() > 0 {
        let rest = batch.drop_first();
        let h0 = batch[0].sha512_hash;
        if seen.contains(h0) {
            lemma_fresh_distinct(seen, rest);
            assert forall|i: int, j: int|
                0 <= i < j < fresh_images(seen, batch).len() implies (#[trigger] fresh_images(
                seen,
                batch,
            )[i]).sha512_hash != (#[trigger] fresh_images(seen, batch)[j]).sha512_hash by {
                assert(fresh_images(seen, batch)[i] == fresh_images(seen, rest)[i]);
                assert(fresh_images(seen, batch)[j] == fresh_images(seen, rest)[j]);
            }
        } else {
            let s1 = insert_hash(seen, h0);
            lemma_fresh_distinct(s1, rest);
            lemma_fresh_not_seen(s1, rest);
            assert forall|i: int, j: int|
                0 <= i < j < fresh_images(seen, batch).len() implies (#[trigger] fresh_images(
                seen,
                batch,
            )[i]).sha512_hash != (#[trigger] fresh_images(seen, batch)[j]).sha512_hash by {
                let fj = fresh_images(seen, batch)[j];
                assert(fj == fresh_images(s1, rest)[j - 1]);
                assert(!s1.contains(fj.sha512_hash));
                if i == 0 {
                    assert(s1[seen.len() as int] == h0);
                    assert(s1.contains(h0));
                } else {
                    assert(fresh_images(seen, batch)[i] == fresh_images(s1, rest)[i - 1]);
                }
            }
        }
    }
}

/// Law: every hash the deduplicator lets through is in the seen set
/// afterwards, so it can never be let through again later.
pub proof fn lemma_fresh_absorbed(seen: Seq<Seq<char>>, batch: Seq<ImageView>)
    ensures
        forall|i: int|
            0 <= i < fresh_images(seen, batch).len() ==> absorb(seen, batch).contains(
                (#[trigger] fresh_images(seen, batch)[i]).sha512_hash,
            ),
    decreases batch.len(),
{
    if batch.len() > 0 {
        let rest = batch.drop_first();
        let h0 = batch[0].sha512_hash;
        let s1 = insert_hash(seen, h0);
        lemma_fresh_absorbed(s1, rest);
        lemma_fresh_absorbed(seen, rest);
        if seen.contains(h0) {
        } else {
            assert forall|i: int| 0 <= i < fresh_images(seen, batch).len() implies absorb(
                seen,
                batch,
            ).contains((#[trigger] fresh_images(seen, batch)[i]).sha512_hash) by {
                if i == 0 {
                    assert(s1[seen.len() as int] == h0);
                    assert(s1.contains(h0));
                    lemma_absorb_grows(s1, rest);
                    lemma_prefix_contains(s1, absorb(s1, rest), h0);
                } else {
                    assert(fresh_images(seen, batch)[i] == fresh_images(s1, rest)[i - 1]);
                }
            }
        }
    }
}

/// Law: two successive batches never let the same content hash through,
/// because everything the first let through sits in the seen set the
/// second starts from.
pub proof fn lemma_dedup_across_batches(
    seen: Seq<Seq<char>>,
    b1: Seq<ImageView>,
    b2: Seq<ImageView>,
)
    ensures
        forall|i: int, j: int|
            0 <= i < fresh_images(seen, b1).len() && 0 <= j < fresh_images(
                absorb(seen, b1),
                b2,
            ).len() ==> (#[trigger] fresh_images(seen, b1)[i]).sha512_hash
                != (#[trigger] fresh_images(absorb(seen, b1), b2)[j]).sha512_hash,
{
    lemma_fresh_absorbed(seen, b1);
    lemma_fresh_not_seen(absorb(seen, b1), b2);
}

/// Law: a batch fed while the seen set holds everything an earlier batch
/// left behind can never let one of the earlier batch's hashes through —
/// however many polling cycles lie between the two, since the seen set
/// only grows.
pub proof fn lemma_dedup_never_repeats(
    seen1: Seq<Seq<char>>,
    b1: Seq<ImageView>,
    seen2: Seq<Seq<char>>,
    b2: Seq<ImageView>,
)
    requires
        absorb(seen1, b1).is_prefix_of(seen2),
    ensures
        forall|i: int, j: int|
            0 <= i < fresh_images(seen1, b1).len() && 0 <= j < fresh_images(seen2, b2).len()
                ==> (#[trigger] fresh_images(seen1, b1)[i]).sha512_hash
                != (#[trigger] fresh_images(seen2, b2)[j]).sha512_hash,
{
    lemma_fresh_absorbed(seen1, b1);
    lemma_fresh_not_seen(seen2, b2);
    assert forall|i: int, j: int|
        0 <= i < fresh_images(seen1, b1).len() && 0 <= j < fresh_images(seen2, b2).len()
            implies (#[trigger] fresh_images(seen1, b1)[i]).sha512_hash
            != (#[trigger] fresh_images(seen2, b2)[j]).sha512_hash by {
        let h = fresh_images(seen1, b1)[i].sha512_hash;
        lemma_prefix_contains(absorb(seen1, b1), seen2, h);
    }
}

/// The set of content hashes already observed, monotonically growing.
pub struct SeenSet {
    hashes: Vec<String>,
}

impl View for SeenSet {
    type V = Seq<Seq<char>>;

    closed spec fn view(&self) -> Seq<Seq<char>> {
        self.hashes.deep_view()
    }
}

impl SeenSet {
    /// The invariant: no hash is held twice.
    pub open spec fn wf(&self) -> bool {
        distinct_hashes(self@)
    }

    /// An empty seen set.
    pub fn new() -> (s: SeenSet)
        ensures
            s@ == Seq::<Seq<char>>::empty(),
            s.wf(),
    {
        let s = SeenSet { hashes: Vec::new() };
        proof {
            assert(s@ =~= Seq::<Seq<char>>::empty());
        }
        s
    }

    /// Builds a seen set from stored hashes, dropping duplicates.
    pub fn from_entries(entries: Vec<String>) -> (s: SeenSet)
        ensures
            s.wf(),
            forall|i: int| 0 <= i < entries@.len() ==> s@.contains(#[trigger] entries@[i]@),
            forall|i: int| 0 <= i < s@.len() ==> entries.deep_view().contains(#[trigger] s@[i]),
    {
        let mut s = SeenSet::new();
        let mut i: usize = 0;
        while i < entries.len()
            invariant
                0 <= i <= entries@.len(),
                s.wf(),
                forall|j: int| 0 <= j < i ==> s@.contains(#[trigger] entries@[j]@),
                forall|k: int|
                    0 <= k < s@.len() ==> entries.deep_view().contains(#[trigger] s@[k]),
            decreases entries@.len() - i,
        {
            let ghost prev = s@;
            let ghost ev = entries@[i as int]@;
            s.insert(entries[i].clone());
            proof {
                assert(entries.deep_view()[i as int] == ev);
                if !prev.contains(ev) {
                    assert forall|j: int| 0 <= j < i + 1 implies s@.contains(
                        #[trigger] entries@[j]@,
                    ) by {
                        if j < i {
                            let k = choose|k: int| 0 <= k < prev.len() && prev[k] == entries@[j]@;
                            assert(s@[k] == entries@[j]@);
                        } else {
                            assert(s@[prev.len() as int] == ev);
                        }
                    }
                }
            }
            i = i + 1;
        }
        s
    }

    /// How many hashes have been seen.
    pub fn len(&self) -> (n: usize)
        ensures
            n == self@.len(),
    {
        self.hashes.len()
    }

    /// The stored hashes, in insertion order, for persistence.
    pub fn entries(&self) -> (v: &Vec<String>)
        ensures
            v.deep_view() == self@,
    {
        &self.hashes
    }

    /// Has this content hash been seen?
    pub fn contains_hash(&self, h: &str) -> (r: bool)
        ensures
            r == self@.contains(h@),
    {
        let mut i: usize = 0;
        while i < self.hashes.len()
            invariant
                0 <= i <= self@.len(),
                self@.len() == self.hashes@.len(),
                forall|j: int| 0 <= j < i ==> self@[j] != h@,
            decreases self@.len() - i,
        {
            proof {
                assert(self@[i as int] == self.hashes@[i as int]@);
            }
            if str_eq(self.hashes[i].as_str(), h) {
                return true;
            }
            i = i + 1;
        }
        false
    }

    /// Records a content hash; a no-op when it is already present.
    pub fn insert(&mut self, h: String)
        requires
            old(self).wf(),
        ensures
            final(self).wf(),
            final(self)@ == insert_hash(old(self)@, h@),
    {
        if !self.contains_hash(h.as_str()) {
            let ghost prev = self@;
            let ghost hv = h@;
            self.hashes.push(h);
            proof {
                assert(self@ =~= prev.push(hv));
                assert forall|i: int, j: int| 0 <= i < j < self@.len() implies self@[i]
                    != self@[j] by {
                    if j == self@.len() - 1 {
                        assert(!prev.contains(hv));
                        assert(prev[i] == self@[i]);
                    }
                }
            }
        }
    }
}

/// The deduplicating feed consumer: holds the hashes seen so far and
/// yields, for each fetched batch, only the images not seen before.
pub struct Derpiquery {
    images: SeenSet,
}

impl Derpiquery {
    /// Starts from the hashes reloaded at process start.
    pub fn new(images: SeenSet) -> (d: Derpiquery)
        requires
            images.wf(),
        ensures
            d.seen_view() == images@,
            d.wf(),
    {
        Derpiquery { images }
    }

    /// The hashes seen so far.
    pub closed spec fn seen_view(&self) -> Seq<Seq<char>> {
        self.images@
    }

    /// The invariant: the seen set holds no duplicates.
    pub closed spec fn wf(&self) -> bool {
        self.images.wf()
    }

    /// The seen set, for persistence.
    pub fn seen(&self) -> (s: &SeenSet)
        ensures
            s@ == self.seen_view(),
    {
        &self.images
    }

    /// Deduplicates one fetched batch: returns the images whose content
    /// hash was not seen before, in batch order, and folds every hash of
    /// the batch into the seen set.
    pub fn compute_new_images(&mut self, fetched: &Vec<ImageResponse>) -> (new_images: Vec<
        ImageResponse,
    >)
        requires
            old(self).wf(),
        ensures
            final(self).wf(),
            final(self).seen_view() == absorb(old(self).seen_view(), imgs_view(fetched@)),
            imgs_view(new_images@) == fresh_images(old(self).seen_view(), imgs_view(fetched@)),
    {
        let ghost seen0 = self.seen_view();
        let ghost bv = imgs_view(fetched@);
        let mut out: Vec<ImageResponse> = Vec::new();
        let mut i: usize = 0;
        proof {
            assert(bv.subrange(0, bv.len() as int) =~= bv);
            assert(imgs_view(out@) =~= Seq::<ImageView>::empty());
        }
        while i < fetched.len()
            invariant
                0 <= i <= fetched@.len(),
                bv == imgs_view(fetched@),
                bv.len() == fetched@.len(),
                self.wf(),
                absorb(seen0, bv) == absorb(self.seen_view(), bv.subrange(i as int, bv.len() as int)),
                fresh_images(seen0, bv) == imgs_view(out@) + fresh_images(
                    self.seen_view(),
                    bv.subrange(i as int, bv.len() as int),
                ),
            decreases fetched@.len() - i,
        {
            let ghost seen_now = self.seen_view();
            let ghost tail = bv.subrange(i as int, bv.len() as int);
            proof {
                assert(tail[0] == bv[i as int]);
                assert(tail.drop_first() =~= bv.subrange(i + 1 as int, bv.len() as int));
                assert(bv[i as int] == fetched@[i as int]@);
            }
            let img = &fetched[i];
            if !self.images.contains_hash(img.sha512_hash.as_str()) {
                let ghost out0 = imgs_view(out@);
                out.push(img.clone());
                proof {
                    assert(imgs_view(out@) =~= out0.push(bv[i as int]));
                    assert(imgs_view(out@) =~= out0 + seq![bv[i as int]]);
                }
            }
            let hash_copy = img.sha512_hash.clone();
            self.images.insert(hash_copy);
            proof {
                assert(fresh_images(seen0, bv) =~= imgs_view(out@) + fresh_images(
                    self.seen_view(),
                    bv.subrange(i + 1 as int, bv.len() as int),
                ));
            }
            i = i + 1;
        }
        proof {
            assert(bv.subrange(bv.len() as int, bv.len() as int) =~= Seq::<ImageView>::empty());
            assert(imgs_view(out@) + Seq::<ImageView>::empty() =~= imgs_view(out@));
        }
        out
    }
}

/// The bounded retry policy of the startup fetch: wait one second, double
/// after every failure, give up once the wait would reach ten minutes.
pub struct RetryBackoff {
    pub timeout_ms: u64,
}

impl RetryBackoff {
    /// The waits stay within the doubling range the policy can reach.
    pub open spec fn wf(&self) -> bool {
        1000 <= self.timeout_ms <= 1200000
    }

    /// The policy starts at one second.
    pub fn new() -> (b: RetryBackoff)
        ensures
            b.timeout_ms == 1000,
            b.wf(),
    {
        RetryBackoff { timeout_ms: 1000 }
    }

    /// Has the policy given up? It does once the wait reaches ten minutes.
    pub fn gave_up(&self) -> (r: bool)
        ensures
            r == (self.timeout_ms >= 600000),
    {
        self.timeout_ms >= 600000
    }

    /// Doubles the wait after a failed attempt.
    pub fn double(&mut self)
        requires
            old(self).wf(),
            old(self).timeout_ms < 600000,
        ensures
            final(self).wf(),
            final(self).timeout_ms == 2 * old(self).timeout_ms,
    {
        self.timeout_ms = self.timeout_ms * 2;
    }
}

} // verus!
