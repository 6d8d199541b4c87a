//! A small cache of image embeddings, keyed by the hash of the image.
//!
//! It holds a fixed number of entries; adding an image replaces the entry
//! with the same key, or else the entry used least recently.

use vstd::prelude::*;

verus! {

/// How many images the cache holds.
pub const IMAGE_CACHE_SIZE: usize = 4;

/// One cached image: its key, its embedding (the bit patterns of the
/// values of each vector) and when it was last used, in nanoseconds since
/// the Unix epoch.
pub struct ImageEntry {
    pub key: u64,
    pub val: Vec<Vec<u32>>,
    pub last_used: u128,
}

/// The cache of image embeddings.
pub struct ImageCache {
    images: Vec<ImageEntry>,
}

/// An embedding as sequences of values.
pub open spec fn embed_view(v: Seq<Vec<u32>>) -> Seq<Seq<u32>> {
    v.map_values(|x: Vec<u32>| x@)
}

/// The first entry with key `hash` among the first `n`, if any.
pub open spec fn first_with_key(images: Seq<ImageEntry>, hash: u64, n: int) -> Option<nat>
    decreases n,
{
    if n <= 0 {
        None
    } else {
        match first_with_key(images, hash, n - 1) {
            Some(i) => Some(i),
            None => if images[n - 1].key == hash {
                Some((n - 1) as nat)
            } else {
                None
            },
        }
    }
}

/// The entry used least recently among the first `n` (the first such;
/// entry 0 when `n` is 0).
pub open spec fn least_recent(images: Seq<ImageEntry>, n: int) -> nat
    decreases n,
{
    if n <= 1 {
        0
    } else {
        let prev = least_recent(images, n - 1);
        if images[n - 1].last_used < images[prev as int].last_used {
            (n - 1) as nat
        } else {
            prev
        }
    }
}

/// The entry that adding an image with key `hash` replaces.
pub open spec fn add_target(images: Seq<ImageEntry>, hash: u64) -> nat {
    match first_with_key(images, hash, images.len() as int) {
        Some(i) => i,
        None => least_recent(images, images.len() as int),
    }
}

proof fn lemma_first_with_key(images: Seq<ImageEntry>, hash: u64, n: int)
    requires
        0 <= n <= images.len(),
    ensures
        first_with_key(images, hash, n) matches Some(i) ==> i < n && images[i as int].key == hash
            && forall|j: int| 0 <= j < i ==> #[trigger] images[j].key != hash,
        first_with_key(images, hash, n) is None ==> forall|j: int|
            0 <= j < n ==> #[trigger] images[j].key != hash,
    decreases n,
{
    if n > 0 {
        lemma_first_with_key(images, hash, n - 1);
    }
}

proof fn lemma_first_with_key_stable(images: Seq<ImageEntry>, hash: u64, n: int, m: int)
    requires
        0 <= n <= m,
        first_with_key(images, hash, n) is Some,
    ensures
        first_with_key(images, hash, m) == first_with_key(images, hash, n),
    decreases m - n,
{
    if m > n {
        lemma_first_with_key_stable(images, hash, n, m - 1);
    }
}

proof fn lemma_least_recent(images: Seq<ImageEntry>, n: int)
    requires
        1 <= n <= images.len(),
    ensures
        least_recent(images, n) < n,
    decreases n,
{
    if n > 1 {
        lemma_least_recent(images, n - 1);
    }
}

/// `SystemTime::now` as nanoseconds since the Unix epoch, or 0 for a clock
/// set before it.  It depends on the clock, so nothing is stated.
#[verifier::external_body]
fn now_nanos() -> u128 {
    match std::time::SystemTime::now().duration_since(std::time::UNIX_EPOCH) {
        Ok(d) => d.as_nanos(),
        Err(_) => 0,
    }
}

fn clone_embed(v: &Vec<Vec<u32>>) -> (out: Vec<Vec<u32>>)
    ensures
        embed_view(out@) == embed_view(v@),
{
    let mut out: Vec<Vec<u32>> = Vec::new();
    let mut i: usize = 0;
    while i < v.len()
        invariant
            i <= v@.len(),
            embed_view(out@) == embed_view(v@).take(i as int),
        decreases v@.len() - i,
    {
        let c = v[i].clone();
        assert(c@ =~= v@[i as int]@);
        let ghost before = out@;
        out.push(c);
        assert(embed_view(out@) =~= embed_view(before).push(v@[i as int]@));
        assert(embed_view(v@).take(i + 1) =~= embed_view(v@).take(i as int).push(v@[i as int]@));
        i += 1;
    }
    assert(embed_view(v@).take(v@.len() as int) =~= embed_view(v@));
    out
}

proof fn lemma_add_target(images: Seq<ImageEntry>, hash: u64)
    requires
        images.len() >= 1,
    ensures
        add_target(images, hash) < images.len(),
{
    lemma_first_with_key(images, hash, images.len() as int);
    lemma_least_recent(images, images.len() as int);
}

impl ImageCache {
    /// The cache holds `IMAGE_CACHE_SIZE` entries.
    pub closed spec fn wf(&self) -> bool {
        self.images@.len() == IMAGE_CACHE_SIZE
    }

    /// The entries, in order.
    pub closed spec fn entries(&self) -> Seq<ImageEntry> {
        self.images@
    }

    /// A cache of empty entries with key 0, never used.
    pub fn new() -> (c: Self)
        ensures
            c.wf(),
            forall|i: int|
                0 <= i < IMAGE_CACHE_SIZE ==> (#[trigger] c.entries()[i]).key == 0
                    && c.entries()[i].val@.len() == 0 && c.entries()[i].last_used == 0,
    {
        let mut images: Vec<ImageEntry> = Vec::new();
        let mut i: usize = 0;
        while i < IMAGE_CACHE_SIZE
            invariant
                i <= IMAGE_CACHE_SIZE,
                images@.len() == i,
                forall|k: int|
                    0 <= k < i ==> (#[trigger] images@[k]).key == 0 && images@[k].val@.len() == 0
                        && images@[k].last_used == 0,
            decreases IMAGE_CACHE_SIZE - i,
        {
            images.push(ImageEntry { key: 0, val: Vec::new(), last_used: 0 });
            i += 1;
        }
        ImageCache { images }
    }

    /// The embedding cached under `hash`, marking its entry used at `now`.
    pub fn find_image_at(&mut self, hash: u64, now: u128) -> (r: Option<Vec<Vec<u32>>>)
        requires
            old(self).wf(),
        ensures
            final(self).wf(),
            match first_with_key(old(self).entries(), hash, IMAGE_CACHE_SIZE as int) {
                None => r is None && final(self).entries() == old(self).entries(),
                Some(i) => r matches Some(v) && embed_view(v@) == embed_view(
                    old(self).entries()[i as int].val@,
                ) && final(self).entries() == old(self).entries().update(
                    i as int,
                    ImageEntry { last_used: now, ..old(self).entries()[i as int] },
                ),
            },
    {
        let ghost imgs = self.images@;
        let mut i: usize = 0;
        while i < self.images.len()
            invariant
                self.images@ == imgs,
                old(self).images@ == imgs,
                imgs.len() == IMAGE_CACHE_SIZE,
                i <= imgs.len(),
                first_with_key(imgs, hash, i as int) is None,
            decreases imgs.len() - i,
        {
            if self.images[i].key == hash {
                let v = clone_embed(&self.images[i].val);
                let old_entry = self.images.remove(i);
                let ghost removed = self.images@;
                let entry = ImageEntry { key: old_entry.key, val: old_entry.val, last_used: now };
                self.images.insert(i, entry);
                assert(self.images@ =~= imgs.update(
                    i as int,
                    ImageEntry { last_used: now, ..imgs[i as int] },
                ));
                proof {
                    assert(first_with_key(imgs, hash, i + 1) == Some(i as nat));
                    lemma_first_with_key_stable(imgs, hash, i + 1, IMAGE_CACHE_SIZE as int);
                }
                return Some(v);
            }
            i += 1;
        }
        None
    }

    /// The embedding cached under `hash`, marking its entry used now.
    pub fn find_image(&mut self, hash: u64) -> (r: Option<Vec<Vec<u32>>>)
        requires
            old(self).wf(),
        ensures
            final(self).wf(),
            match first_with_key(old(self).entries(), hash, IMAGE_CACHE_SIZE as int) {
                None => r is None && final(self).entries() == old(self).entries(),
                Some(i) => r matches Some(v) && embed_view(v@) == embed_view(
                    old(self).entries()[i as int].val@,
                ) && final(self).entries().len() == old(self).entries().len()
                    && final(self).entries()[i as int].key == old(self).entries()[i as int].key
                    && final(self).entries()[i as int].val == old(self).entries()[i as int].val
                    && forall|j: int|
                    0 <= j < old(self).entries().len() && j != i ==> #[trigger] final(self).entries()[j]
                        == old(self).entries()[j],
            },
    {
        proof {
            lemma_first_with_key(self.images@, hash, IMAGE_CACHE_SIZE as int);
        }
        let now = now_nanos();
        self.find_image_at(hash, now)
    }

    /// Caches `embed` under `hash` at time `now`, in the entry that already
    /// has that key, or else in the entry used least recently.
    pub fn add_image_at(&mut self, hash: u64, embed: Vec<Vec<u32>>, now: u128)
        requires
            old(self).wf(),
        ensures
            final(self).wf(),
            final(self).entries() == old(self).entries().update(
                add_target(old(self).entries(), hash) as int,
                ImageEntry { key: hash, val: embed, last_used: now },
            ),
    {
        let ghost imgs = self.images@;
        let n = self.images.len();
        let mut best_idx: usize = 0;
        let mut best_time: u128 = self.images[0].last_used;
        let mut i: usize = 0;
        while i < n && self.images[i].key != hash
            invariant
                self.images@ == imgs,
                n == imgs.len(),
                imgs.len() == IMAGE_CACHE_SIZE,
                i <= n,
                first_with_key(imgs, hash, i as int) is None,
                i >= 1 ==> best_idx == least_recent(imgs, i as int),
                i == 0 ==> best_idx == 0,
                best_time == imgs[best_idx as int].last_used,
                best_idx < n,
            decreases n - i,
        {
            if self.images[i].last_used < best_time {
                best_time = self.images[i].last_used;
                best_idx = i;
            }
            proof {
                if i >= 1 {
                    lemma_least_recent(imgs, i as int);
                }
            }
            i += 1;
        }
        if i < n {
            best_idx = i;
            proof {
                assert(first_with_key(imgs, hash, i + 1) == Some(i as nat));
                lemma_first_with_key_stable(imgs, hash, i + 1, IMAGE_CACHE_SIZE as int);
            }
        } else {
            proof {
                lemma_least_recent(imgs, IMAGE_CACHE_SIZE as int);
            }
        }
        let _old = self.images.remove(best_idx);
        self.images.insert(best_idx, ImageEntry { key: hash, val: embed, last_used: now });
    }

    /// Caches `embed` under `hash`, marking it used now.
    pub fn add_image(&mut self, hash: u64, embed: Vec<Vec<u32>>)
        requires
            old(self).wf(),
        ensures
            final(self).wf(),
            final(self).entries().len() == old(self).entries().len(),
            final(self).entries()[add_target(old(self).entries(), hash) as int].key == hash,
            final(self).entries()[add_target(old(self).entries(), hash) as int].val == embed,
            forall|j: int|
                0 <= j < old(self).entries().len() && j != add_target(old(self).entries(), hash)
                    ==> #[trigger] final(self).entries()[j] == old(self).entries()[j],
    {
        proof {
            lemma_add_target(self.images@, hash);
        }
        let now = now_nanos();
        self.add_image_at(hash, embed, now)
    }
}

proof fn lemma_first_with_key_at(images: Seq<ImageEntry>, hash: u64, n: int, i: int)
    requires
        0 <= i < n <= images.len(),
        images[i].key == hash,
        forall|j: int| 0 <= j < i ==> #[trigger] images[j].key != hash,
    ensures
        first_with_key(images, hash, n) == Some(i as nat),
    decreases n,
{
    if n - 1 > i {
        lemma_first_with_key_at(images, hash, n - 1, i);
    } else {
        lemma_first_with_key(images, hash, n - 1);
    }
}

/// After an image is added under `hash`, looking `hash` up finds the entry
/// it was written to, so the embedding just added is what comes back.
pub proof fn law_find_after_add(images: Seq<ImageEntry>, hash: u64, embed: Vec<Vec<u32>>, now: u128)
    requires
        images.len() == IMAGE_CACHE_SIZE,
    ensures
        ({
            let t = add_target(images, hash);
            let after = images.update(t as int, ImageEntry { key: hash, val: embed, last_used: now });
            first_with_key(after, hash, IMAGE_CACHE_SIZE as int) == Some(t) && after[t as int].val
                == embed
        }),
{
    lemma_add_target(images, hash);
    lemma_first_with_key(images, hash, images.len() as int);
    let t = add_target(images, hash);
    let after = images.update(t as int, ImageEntry { key: hash, val: embed, last_used: now });
    assert forall|j: int| 0 <= j < t implies #[trigger] after[j].key != hash by {
        assert(after[j] == images[j]);
    }
    lemma_first_with_key_at(after, hash, IMAGE_CACHE_SIZE as int, t as int);
}

} // verus!
