//! A directory session: the sorted collection, the shown index, the cache of
//! loaded images and the indices with a load in flight.
use vstd::prelude::*;
use crate::errors::{DirLoadError, RatingsSaveError};
use crate::index_map::IndexMap;
use crate::names::{file_name_is_relevant, is_image_name, sort_names, sorted_names};
use crate::policy::{clamp, lemma_resident_in_range, ImageLoadingPolicy};
use crate::rating::{
    nesting_within,
    loaded,
    names_of,
    parsed_ratings,
    rated,
    ratings_yaml,
    document_of,
    set_in,
    ImageRatings,
    Rating,
    RatingsModel,
    MAX_NESTING,
};

verus! {

/// What became of a load result handed to the session.
#[derive(Debug, Clone, Copy, PartialEq, Eq, Structural)]
pub enum Receipt {
    /// The image is now cached.
    Stored,
    /// The load failed; the index is no longer pending.
    Failed,
    /// Nobody waited for this result (already cached, or no longer
    /// resident); nothing changed.
    Discarded,
}

/// The names of `s` that belong to the collection, in order.
pub open spec fn image_names(s: Seq<String>) -> Seq<String>
    decreases s.len(),
{
    if s.len() == 0 {
        Seq::empty()
    } else {
        let prev = image_names(s.drop_last());
        if is_image_name(s.last()@) {
            prev.push(s.last())
        } else {
            prev
        }
    }
}

/// The collection indices that the positions `idxs` of `active` stand for.
pub open spec fn coll_of(active: Seq<usize>, idxs: Seq<usize>) -> Seq<usize> {
    idxs.map_values(|i: usize| active[i as int])
}

/// The indices of `res`, in order, that are neither cached nor pending.
pub open spec fn missing(res: Seq<usize>, cached: Set<usize>, pending: Set<usize>) -> Seq<usize>
    decreases res.len(),
{
    if res.len() == 0 {
        Seq::empty()
    } else {
        let prev = missing(res.drop_last(), cached, pending);
        let c = res.last();
        if !cached.contains(c) && !pending.contains(c) {
            prev.push(c)
        } else {
            prev
        }
    }
}

/// The collection indices `0..n` whose image has rating `r`, ascending.
pub open spec fn rated_idxs(names: Seq<String>, active: Map<Seq<char>, Rating>, r: Rating, n: int) -> Seq<usize>
    decreases n,
{
    if n <= 0 {
        Seq::empty()
    } else {
        let prev = rated_idxs(names, active, r, n - 1);
        if rated(active, names[n - 1]@) == r {
            prev.push((n - 1) as usize)
        } else {
            prev
        }
    }
}

/// `0, 1, ..., n - 1`.
pub open spec fn all_idxs(n: int) -> Seq<usize> {
    Seq::new(n as nat, |i: int| i as usize)
}

/// How many entries of `s` are below `c`.
pub open spec fn count_below(s: Seq<usize>, c: usize) -> int
    decreases s.len(),
{
    if s.len() == 0 {
        0
    } else {
        count_below(s.drop_last(), c) + if s.last() < c {
            1int
        } else {
            0
        }
    }
}

/// Clamps `idx + offset` into `[0, max - 1]`.
pub fn offset_idx(idx: usize, max: usize, offset: i32) -> (r: usize)
    requires
        max > 0,
    ensures
        r == clamp(idx + offset, 0, max - 1),
{
    let last = max - 1;
    if offset < 0 {
        let back = (0 - (offset as i64)) as usize;
        let moved = if back >= idx {
            0
        } else {
            idx - back
        };
        if moved > last {
            last
        } else {
            moved
        }
    } else {
        let ahead = offset as usize;
        if idx >= last {
            last
        } else if ahead >= last - idx {
            last
        } else {
            idx + ahead
        }
    }
}

/// A directory of images being browsed.
///
/// Indices into the collection (sorted by file name) are the keys of the
/// cache, of the pending set and of the load requests. The user steps through
/// `active_idxs`, the collection indices that pass the rating filter.
pub struct LoadedDir<I> {
    collection: Vec<String>,
    active_idxs: Vec<usize>,
    load_pivot: usize,
    current_idx: usize,
    loaded_images: IndexMap<I>,
    pending_loads: IndexMap<()>,
    requests: Vec<usize>,
    ratings: ImageRatings,
    rating_filter: Option<Rating>,
}

impl<I> LoadedDir<I> {
    /// The file names of the collection.
    pub closed spec fn names_view(&self) -> Seq<String> {
        self.collection@
    }

    /// The collection indices that the user steps through.
    pub closed spec fn active_view(&self) -> Seq<usize> {
        self.active_idxs@
    }

    /// The position in `active_view` that the resident window is built around.
    pub closed spec fn pivot_view(&self) -> int {
        self.load_pivot as int
    }

    /// The position in `active_view` that is shown.
    pub closed spec fn current_view(&self) -> int {
        self.current_idx as int
    }

    /// Loaded images by collection index.
    pub closed spec fn cache_view(&self) -> Map<usize, I> {
        self.loaded_images@
    }

    /// Collection indices whose load is in flight.
    pub closed spec fn pending_view(&self) -> Set<usize> {
        self.pending_loads@.dom()
    }

    /// Load requests not yet taken by `take_load_requests`.
    pub closed spec fn requests_view(&self) -> Seq<usize> {
        self.requests@
    }

    pub closed spec fn ratings_view(&self) -> RatingsModel {
        self.ratings@
    }

    pub closed spec fn filter_view(&self) -> Option<Rating> {
        self.rating_filter
    }

    pub closed spec fn wf(&self) -> bool {
        let n = self.collection@.len();
        &&& n > 0
        &&& sorted_names(self.collection@)
        &&& self.active_idxs@.len() > 0
        &&& forall|i: int, j: int|
            0 <= i < j < self.active_idxs@.len() ==> self.active_idxs@[i] < self.active_idxs@[j]
        &&& forall|i: int| 0 <= i < self.active_idxs@.len() ==> self.active_idxs@[i] < n
        &&& self.current_idx < self.active_idxs@.len()
        &&& self.load_pivot < self.active_idxs@.len()
        &&& self.ratings.wf()
        &&& forall|k: Seq<char>| #[trigger]
            self.ratings@.1.contains_key(k) ==> !names_of(self.collection@).contains(k)
        &&& forall|k: usize| #[trigger] self.loaded_images@.contains_key(k) ==> k < n
        &&& forall|k: usize| #[trigger] self.pending_loads@.contains_key(k) ==> k < n
        &&& forall|k: usize|
            !(self.loaded_images@.contains_key(k) && #[trigger] self.pending_loads@.contains_key(k))
        &&& forall|i: int| 0 <= i < self.requests@.len() ==> self.requests@[i] < n
    }

    /// The state after reconciling the cache and the pending set with the
    /// resident window, from a session whose positions are `active`, pivot
    /// `pivot`, cache `cache`, pending set `pending` and requests `requests`,
    /// showing position `shown`: the pivot moves as the policy says, cached
    /// images outside the window are dropped, pending indices outside it are
    /// no longer tracked, and every index of the window that is neither
    /// cached nor pending is requested, in order of priority.
    pub open spec fn reconciled(
        &self,
        policy: ImageLoadingPolicy,
        active: Seq<usize>,
        pivot: int,
        shown: int,
        cache: Map<usize, I>,
        pending: Set<usize>,
        requests: Seq<usize>,
    ) -> bool {
        let p = policy.next_pivot(pivot, shown);
        let res = coll_of(active, policy.resident(p, active.len() as int));
        &&& self.active_view() == active
        &&& self.current_view() == shown
        &&& self.pivot_view() == p
        &&& self.cache_view() == cache.restrict(res.to_set())
        &&& self.pending_view() == res.to_set().difference(self.cache_view().dom())
        &&& self.requests_view() == requests + missing(res, cache.dom(), pending)
    }

    /// `self` and `other` hold the same collection, ratings and filter.
    pub open spec fn same_dir(&self, other: &Self) -> bool {
        &&& self.names_view() == other.names_view()
        &&& self.ratings_view() == other.ratings_view()
        &&& self.filter_view() == other.filter_view()
    }
}

impl<I> LoadedDir<I> {
    fn needs_load(&self, coll_idx: usize) -> (r: bool)
        requires
            self.wf(),
        ensures
            r == (!self.cache_view().contains_key(coll_idx) && !self.pending_view().contains(coll_idx)),
    {
        !self.loaded_images.contains_key(coll_idx) && !self.pending_loads.contains_key(coll_idx)
    }

    fn submit_load_request(&mut self, coll_idx: usize)
        requires
            old(self).wf(),
            coll_idx < old(self).names_view().len(),
            !old(self).cache_view().contains_key(coll_idx),
            !old(self).pending_view().contains(coll_idx),
        ensures
            final(self).wf(),
            final(self).same_dir(old(self)),
            final(self).active_view() == old(self).active_view(),
            final(self).current_view() == old(self).current_view(),
            final(self).pivot_view() == old(self).pivot_view(),
            final(self).cache_view() == old(self).cache_view(),
            final(self).pending_view() == old(self).pending_view().insert(coll_idx),
            final(self).requests_view() == old(self).requests_view().push(coll_idx),
    {
        self.pending_loads.insert_new(coll_idx, ());
        self.requests.push(coll_idx);
        assert(self.pending_loads@.dom() =~= old(self).pending_loads@.dom().insert(coll_idx));
    }

    #[verifier::loop_isolation(false)]
    fn update_loaded(&mut self, policy: &ImageLoadingPolicy)
        requires
            old(self).wf(),
        ensures
            final(self).wf(),
            final(self).same_dir(old(self)),
            final(self).reconciled(
                *policy,
                old(self).active_view(),
                old(self).pivot_view(),
                old(self).current_view(),
                old(self).cache_view(),
                old(self).pending_view(),
                old(self).requests_view(),
            ),
    {
        let ghost old_cache = self.loaded_images@;
        let ghost old_pending = self.pending_view();
        let ghost old_requests = self.requests@;
        let ghost active = self.active_idxs@;
        let ghost n = self.collection@.len();
        let (new_pivot, load_set) = policy.get_load_set(
            self.load_pivot,
            self.current_idx,
            self.active_idxs.len(),
        );
        proof {
            lemma_resident_in_range(*policy, new_pivot as int, active.len() as int);
        }
        self.load_pivot = new_pivot;
        let mut load_coll_idxs: Vec<usize> = Vec::new();
        let mut i: usize = 0;
        while i < load_set.len()
            invariant
                i <= load_set@.len(),
                load_coll_idxs@ == coll_of(active, load_set@.take(i as int)),
            decreases load_set@.len() - i,
        {
            load_coll_idxs.push(self.active_idxs[load_set[i]]);
            i = i + 1;
            assert(load_coll_idxs@ =~= coll_of(active, load_set@.take(i as int)));
        }
        assert(load_set@.take(i as int) =~= load_set@);
        let ghost res = load_coll_idxs@;
        assert forall|a: int, b: int| 0 <= a < b < res.len() implies res[a] != res[b] by {
            assert(load_set@[a] != load_set@[b]);
            if load_set@[a] < load_set@[b] {
                assert(active[load_set@[a] as int] < active[load_set@[b] as int]);
            } else {
                assert(active[load_set@[b] as int] < active[load_set@[a] as int]);
            }
        }
        self.loaded_images.retain_keys(&load_coll_idxs);
        self.pending_loads.retain_keys(&load_coll_idxs);
        let ghost kept_pending = self.pending_view();
        let ghost cache = self.loaded_images@;
        assert(res.take(0) =~= Seq::<usize>::empty());
        let mut j: usize = 0;
        while j < load_coll_idxs.len()
            invariant
                j <= res.len(),
                self.wf(),
                self.same_dir(old(self)),
                self.active_idxs@ == active,
                self.current_idx == old(self).current_idx,
                self.load_pivot == new_pivot,
                self.loaded_images@ == cache,
                forall|c: usize|
                    #[trigger] self.pending_view().contains(c) <==> kept_pending.contains(c) || (exists|q: int|
                        0 <= q < j && res[q] == c && !cache.contains_key(c)),
                self.requests@ == old_requests + missing(res.take(j as int), old_cache.dom(), old_pending),
            decreases res.len() - j,
        {
            let c = load_coll_idxs[j];
            let ghost before = self.pending_view();
            assert(res.take(j + 1).drop_last() =~= res.take(j as int));
            assert(res.take(j + 1).last() == c);
            assert(res.to_set().contains(c));
            assert(before.contains(c) == kept_pending.contains(c));
            if self.needs_load(c) {
                self.submit_load_request(c);
            }
            j = j + 1;
            assert forall|x: usize| #[trigger] self.pending_view().contains(x) <==> kept_pending.contains(x) || (
            exists|q: int| 0 <= q < j && res[q] == x && !cache.contains_key(x)) by {
                if x == c && !cache.contains_key(x) {
                    assert(res[j - 1] == x);
                }
            }
        }
        assert(res.take(j as int) =~= res);
        assert(self.pending_view() =~= res.to_set().difference(self.cache_view().dom())) by {
            assert forall|x: usize| #[trigger] self.pending_view().contains(x) implies res.to_set().contains(x)
                && !self.cache_view().contains_key(x) by {
                if kept_pending.contains(x) {
                    assert(old_pending.contains(x));
                } else {
                    let q = choose|q: int| 0 <= q < j && res[q] == x && !cache.contains_key(x);
                    assert(res.contains(x));
                }
            }
            assert forall|x: usize| res.to_set().contains(x) && !self.cache_view().contains_key(x) implies #[trigger] self.pending_view().contains(x) by {
                let q = choose|q: int| 0 <= q < res.len() && res[q] == x;
                if !kept_pending.contains(x) {
                    assert(0 <= q < j && res[q] == x && !cache.contains_key(x));
                }
            }
        }
    }
}

impl<I> LoadedDir<I> {
    /// The position in `active_view` of collection index `c` after a change
    /// of `active_view` to `s`: the first entry not below `c`, or the last.
    fn position_of(s: &Vec<usize>, c: usize) -> (r: usize)
        requires
            s@.len() > 0,
        ensures
            r == clamp(count_below(s@, c), 0, s@.len() - 1),
    {
        let mut below: usize = 0;
        let mut i: usize = 0;
        assert(s@.take(0) =~= Seq::<usize>::empty());
        while i < s.len()
            invariant
                i <= s@.len(),
                below <= i,
                below == count_below(s@.take(i as int), c),
            decreases s@.len() - i,
        {
            assert(s@.take(i + 1).drop_last() =~= s@.take(i as int));
            if s[i] < c {
                below = below + 1;
            }
            i = i + 1;
        }
        assert(s@.take(i as int) =~= s@);
        if below > s.len() - 1 {
            s.len() - 1
        } else {
            below
        }
    }

    /// Clamps `idx` into the positions of `active_view` and shows it.
    pub fn set_shown(&mut self, idx: usize, policy: &ImageLoadingPolicy)
        requires
            old(self).wf(),
        ensures
            final(self).wf(),
            final(self).same_dir(old(self)),
            final(self).reconciled(
                *policy,
                old(self).active_view(),
                old(self).pivot_view(),
                clamp(idx as int, 0, old(self).active_view().len() - 1),
                old(self).cache_view(),
                old(self).pending_view(),
                old(self).requests_view(),
            ),
    {
        let last = self.active_idxs.len() - 1;
        self.current_idx = if idx > last {
            last
        } else {
            idx
        };
        self.update_loaded(policy);
    }

    /// Moves the shown position by `offset`, holding at either end.
    pub fn offset_current(&mut self, offset: i32, policy: &ImageLoadingPolicy)
        requires
            old(self).wf(),
        ensures
            final(self).wf(),
            final(self).same_dir(old(self)),
            final(self).reconciled(
                *policy,
                old(self).active_view(),
                old(self).pivot_view(),
                clamp(old(self).current_view() + offset, 0, old(self).active_view().len() - 1),
                old(self).cache_view(),
                old(self).pending_view(),
                old(self).requests_view(),
            ),
    {
        self.current_idx = offset_idx(self.current_idx, self.active_idxs.len(), offset);
        self.update_loaded(policy);
    }

    /// Hands over the load requests made since the last call: each is a
    /// collection index whose image should be loaded and passed to
    /// `receive_image`.
    pub fn take_load_requests(&mut self) -> (r: Vec<usize>)
        requires
            old(self).wf(),
        ensures
            final(self).wf(),
            final(self).same_dir(old(self)),
            r@ == old(self).requests_view(),
            forall|i: int| 0 <= i < r@.len() ==> r@[i] < old(self).names_view().len(),
            final(self).requests_view() == Seq::<usize>::empty(),
            final(self).active_view() == old(self).active_view(),
            final(self).current_view() == old(self).current_view(),
            final(self).pivot_view() == old(self).pivot_view(),
            final(self).cache_view() == old(self).cache_view(),
            final(self).pending_view() == old(self).pending_view(),
    {
        let mut taken: Vec<usize> = Vec::new();
        std::mem::swap(&mut taken, &mut self.requests);
        taken
    }

    /// Takes the result of loading collection index `coll_idx`: `None` if the
    /// load failed. A result that the session waits for is stored (or, for a
    /// failure, the index stops being pending); any other result is
    /// discarded.
    pub fn receive_image(&mut self, coll_idx: usize, image: Option<I>) -> (r: Receipt)
        requires
            old(self).wf(),
        ensures
            final(self).wf(),
            final(self).same_dir(old(self)),
            final(self).active_view() == old(self).active_view(),
            final(self).current_view() == old(self).current_view(),
            final(self).pivot_view() == old(self).pivot_view(),
            final(self).requests_view() == old(self).requests_view(),
            old(self).pending_view().contains(coll_idx) ==> final(self).pending_view()
                == old(self).pending_view().remove(coll_idx),
            match image {
                Some(img) => old(self).pending_view().contains(coll_idx) ==> r == Receipt::Stored
                    && final(self).cache_view() == old(self).cache_view().insert(coll_idx, img),
                None => old(self).pending_view().contains(coll_idx) ==> r == Receipt::Failed
                    && final(self).cache_view() == old(self).cache_view(),
            },
            !old(self).pending_view().contains(coll_idx) ==> r == Receipt::Discarded
                && final(self).cache_view() == old(self).cache_view() && final(self).pending_view()
                == old(self).pending_view(),
    {
        if !self.pending_loads.contains_key(coll_idx) {
            return Receipt::Discarded;
        }
        self.pending_loads.remove(coll_idx);
        assert(self.pending_loads@.dom() =~= old(self).pending_loads@.dom().remove(coll_idx));
        match image {
            Some(img) => {
                self.loaded_images.insert_new(coll_idx, img);
                Receipt::Stored
            },
            None => Receipt::Failed,
        }
    }
}

impl<I> LoadedDir<I> {
    /// Opens a session on the files of a directory, given their names and the
    /// text of the ratings sidecar (`None` if there is none). The collection
    /// is the relevant names, sorted; the first of them is shown, and the
    /// loads of the resident window are requested.
    pub fn new(file_names: Vec<String>, ratings_text: Option<&str>, policy: &ImageLoadingPolicy) -> (r:
        Result<LoadedDir<I>, DirLoadError>)
        ensures
            image_names(file_names@).len() == 0 ==> r is Err && r->Err_0 is NoRelevantImages,
            image_names(file_names@).len() > 0 ==> match ratings_text {
                None => r is Ok,
                Some(t) => (r is Ok <==> nesting_within(t@, MAX_NESTING as nat) && parsed_ratings(t@) is Some)
                    && (r is Err ==> r->Err_0 is RatingsLoadError),
            },
            r is Ok ==> ({
                let d = r->Ok_0;
                let n = d.names_view().len() as int;
                &&& d.wf()
                &&& sorted_names(d.names_view())
                &&& d.names_view().to_multiset() == image_names(file_names@).to_multiset()
                &&& d.filter_view() == None::<Rating>
                &&& d.ratings_view() == match ratings_text {
                    None => (Map::<Seq<char>, Rating>::empty(), Map::<Seq<char>, Rating>::empty()),
                    Some(t) => loaded(names_of(d.names_view()), parsed_ratings(t@)->Some_0),
                }
                &&& d.reconciled(
                    *policy,
                    all_idxs(n),
                    0,
                    0,
                    Map::<usize, I>::empty(),
                    Set::<usize>::empty(),
                    Seq::<usize>::empty(),
                )
            }),
    {
        let mut collection: Vec<String> = Vec::new();
        let mut i: usize = 0;
        assert(file_names@.take(0) =~= Seq::<String>::empty());
        while i < file_names.len()
            invariant
                i <= file_names@.len(),
                collection@ == image_names(file_names@.take(i as int)),
            decreases file_names@.len() - i,
        {
            assert(file_names@.take(i + 1).drop_last() =~= file_names@.take(i as int));
            assert(file_names@.take(i + 1).last() == file_names@[i as int]);
            if file_name_is_relevant(file_names[i].as_str()) {
                collection.push(file_names[i].clone());
            }
            i = i + 1;
        }
        assert(file_names@.take(i as int) =~= file_names@);
        if collection.len() == 0 {
            return Err(DirLoadError::NoRelevantImages);
        }
        let ghost unsorted = collection@;
        sort_names(&mut collection);
        proof {
            collection@.to_multiset_ensures();
            unsorted.to_multiset_ensures();
        }
        assert(collection@.len() > 0);
        let ratings = match ImageRatings::new(&collection, ratings_text) {
            Ok(ratings) => ratings,
            Err(e) => {
                return Err(DirLoadError::RatingsLoadError(e));
            },
        };
        let n = collection.len();
        let mut active_idxs: Vec<usize> = Vec::new();
        let mut c: usize = 0;
        while c < n
            invariant
                c <= n,
                active_idxs@ == all_idxs(c as int),
            decreases n - c,
        {
            active_idxs.push(c);
            c = c + 1;
            assert(active_idxs@ =~= all_idxs(c as int));
        }
        let mut loaded_dir = LoadedDir {
            collection,
            active_idxs,
            load_pivot: 0,
            current_idx: 0,
            loaded_images: IndexMap::new(),
            pending_loads: IndexMap::new(),
            requests: Vec::new(),
            ratings,
            rating_filter: None,
        };
        assert(loaded_dir.pending_loads@.dom() =~= Set::<usize>::empty());
        loaded_dir.update_loaded(policy);
        Ok(loaded_dir)
    }

    /// The collection index of the shown image.
    pub fn current_collection_idx(&self) -> (r: usize)
        requires
            self.wf(),
        ensures
            r == self.active_view()[self.current_view()],
            r < self.names_view().len(),
    {
        self.active_idxs[self.current_idx]
    }

    pub fn collection_image_count(&self) -> (r: usize)
        requires
            self.wf(),
        ensures
            r == self.names_view().len(),
    {
        self.collection.len()
    }

    /// The shown image, if it is loaded.
    pub fn current_image(&self) -> (r: Option<&I>)
        requires
            self.wf(),
        ensures
            ({
                let c = self.active_view()[self.current_view()];
                match r {
                    Some(v) => self.cache_view().contains_key(c) && *v == self.cache_view()[c],
                    None => !self.cache_view().contains_key(c),
                }
            }),
    {
        self.loaded_images.get(self.current_collection_idx())
    }

    /// The file name of collection index `coll_idx`.
    pub fn file_name(&self, coll_idx: usize) -> (r: String)
        requires
            self.wf(),
            coll_idx < self.names_view().len(),
        ensures
            r@ == self.names_view()[coll_idx as int]@,
    {
        self.collection[coll_idx].clone()
    }

    /// The file name of the shown image.
    pub fn current_file_name(&self) -> (r: String)
        requires
            self.wf(),
        ensures
            r@ == self.names_view()[self.active_view()[self.current_view()] as int]@,
    {
        self.file_name(self.current_collection_idx())
    }

    /// Rates the shown image, and returns the text to write to the sidecar.
    pub fn set_current_rating(&mut self, rating: Rating) -> (r: Result<String, RatingsSaveError>)
        requires
            old(self).wf(),
        ensures
            final(self).wf(),
            final(self).ratings_view() == set_in(
                old(self).ratings_view(),
                old(self).names_view()[old(self).active_view()[old(self).current_view()] as int]@,
                rating,
            ),
            r is Ok,
            r is Ok ==> r->Ok_0@ == ratings_yaml(document_of(final(self).ratings_view())),
            final(self).ratings_view().1 == old(self).ratings_view().1,
            rated(
                final(self).ratings_view().0,
                old(self).names_view()[old(self).active_view()[old(self).current_view()] as int]@,
            ) == rating,
            forall|k: Seq<char>|
                k != old(self).names_view()[old(self).active_view()[old(self).current_view()] as int]@
                    ==> rated(final(self).ratings_view().0, k) == rated(old(self).ratings_view().0, k),
            final(self).names_view() == old(self).names_view(),
            final(self).filter_view() == old(self).filter_view(),
            final(self).active_view() == old(self).active_view(),
            final(self).current_view() == old(self).current_view(),
            final(self).pivot_view() == old(self).pivot_view(),
            final(self).cache_view() == old(self).cache_view(),
            final(self).pending_view() == old(self).pending_view(),
            final(self).requests_view() == old(self).requests_view(),
    {
        let idx = self.current_collection_idx();
        let file_name = self.file_name(idx);
        let ghost key = file_name@;
        assert(names_of(self.collection@).contains(key));
        assert(!self.ratings@.1.contains_key(key));
        let r = self.ratings.set_rating(file_name, rating);
        assert(self.ratings@.1 =~= old(self).ratings@.1);
        r
    }

    /// The rating of the shown image.
    pub fn get_current_rating(&self) -> (r: Rating)
        requires
            self.wf(),
        ensures
            r == rated(
                self.ratings_view().0,
                self.names_view()[self.active_view()[self.current_view()] as int]@,
            ),
    {
        let file_name = self.file_name(self.current_collection_idx());
        self.ratings.get_rating(&file_name)
    }

    /// The shown position in the active positions.
    pub fn shown_idx(&self) -> (r: usize)
        ensures
            r == self.current_view(),
    {
        self.current_idx
    }

    /// The loaded image of collection index `coll_idx`, if there is one.
    pub fn image_at(&self, coll_idx: usize) -> (r: Option<&I>)
        requires
            self.wf(),
        ensures
            match r {
                Some(v) => self.cache_view().contains_key(coll_idx) && *v == self.cache_view()[coll_idx],
                None => !self.cache_view().contains_key(coll_idx),
            },
    {
        self.loaded_images.get(coll_idx)
    }

    /// Whether a load of collection index `coll_idx` is in flight.
    pub fn is_pending(&self, coll_idx: usize) -> (r: bool)
        requires
            self.wf(),
        ensures
            r == self.pending_view().contains(coll_idx),
    {
        self.pending_loads.contains_key(coll_idx)
    }

    pub fn get_rating_filter(&self) -> (r: Option<Rating>)
        ensures
            r == self.filter_view(),
    {
        self.rating_filter
    }
}

/// The positions that a filter leaves in a collection of `names` with active
/// ratings `active`: every index without a filter, else the indices whose
/// image has the filter's rating.
pub open spec fn filtered(names: Seq<String>, active: Map<Seq<char>, Rating>, filter: Option<Rating>) -> Seq<usize> {
    match filter {
        None => all_idxs(names.len() as int),
        Some(r) => rated_idxs(names, active, r, names.len() as int),
    }
}

impl<I> LoadedDir<I> {
    /// Steps through only the images of one rating (`None`: through all).
    /// The shown image stays if it passes the filter, else the next one
    /// that does (or the last) is shown. A filter that no image passes
    /// changes nothing.
    pub fn set_rating_filter(&mut self, rating: Option<Rating>, policy: &ImageLoadingPolicy)
        requires
            old(self).wf(),
        ensures
            final(self).wf(),
            final(self).names_view() == old(self).names_view(),
            final(self).ratings_view() == old(self).ratings_view(),
            ({
                let s = filtered(old(self).names_view(), old(self).ratings_view().0, rating);
                let c = old(self).active_view()[old(self).current_view()];
                let pos = clamp(count_below(s, c), 0, s.len() - 1);
                if s.len() == 0 {
                    &&& final(self).filter_view() == old(self).filter_view()
                    &&& final(self).active_view() == old(self).active_view()
                    &&& final(self).current_view() == old(self).current_view()
                    &&& final(self).pivot_view() == old(self).pivot_view()
                    &&& final(self).cache_view() == old(self).cache_view()
                    &&& final(self).pending_view() == old(self).pending_view()
                    &&& final(self).requests_view() == old(self).requests_view()
                } else {
                    &&& final(self).filter_view() == rating
                    &&& final(self).reconciled(
                        *policy,
                        s,
                        pos,
                        pos,
                        old(self).cache_view(),
                        old(self).pending_view(),
                        old(self).requests_view(),
                    )
                }
            }),
    {
        let ghost names = self.collection@;
        let ghost act = self.ratings@.0;
        let n = self.collection.len();
        let mut idxs: Vec<usize> = Vec::new();
        let mut c: usize = 0;
        while c < n
            invariant
                c <= n,
                n == names.len(),
                self.wf(),
                self.collection@ == names,
                self.ratings@.0 == act,
                idxs@ == match rating {
                    None => all_idxs(c as int),
                    Some(r) => rated_idxs(names, act, r, c as int),
                },
                forall|a: int, b: int| 0 <= a < b < idxs@.len() ==> idxs@[a] < idxs@[b],
                forall|a: int| 0 <= a < idxs@.len() ==> idxs@[a] < c,
            decreases n - c,
        {
            let keep = match rating {
                None => true,
                Some(r) => self.ratings.get_rating(&self.collection[c]) == r,
            };
            if keep {
                idxs.push(c);
            }
            c = c + 1;
            assert(idxs@ =~= match rating {
                None => all_idxs(c as int),
                Some(r) => rated_idxs(names, act, r, c as int),
            });
        }
        if idxs.len() == 0 {
            return ;
        }
        let coll_idx = self.current_collection_idx();
        let new_current = Self::position_of(&idxs, coll_idx);
        self.rating_filter = rating;
        self.active_idxs = idxs;
        self.load_pivot = new_current;
        self.current_idx = new_current;
        self.update_loaded(policy);
    }
}

/// A well-formed session has at least one image and one active position;
/// the shown position and the pivot are active positions, and every active
/// position names an image of the collection.
pub proof fn lemma_session_positions<I>(d: LoadedDir<I>)
    requires
        d.wf(),
    ensures
        d.names_view().len() > 0,
        d.active_view().len() > 0,
        0 <= d.current_view() < d.active_view().len(),
        0 <= d.pivot_view() < d.active_view().len(),
        forall|i: int| 0 <= i < d.active_view().len() ==> #[trigger] d.active_view()[i] < d.names_view().len(),
{
}

/// No index is both cached and pending. Every operation of a session keeps
/// `wf`, so this holds after any sequence of them, whatever the order in
/// which load results arrive.
pub proof fn lemma_cache_pending_disjoint<I>(d: LoadedDir<I>)
    requires
        d.wf(),
    ensures
        forall|k: usize| !(d.cache_view().contains_key(k) && #[trigger] d.pending_view().contains(k)),
{
}

/// After reconciling, every index of the resident window is cached or
/// pending, and only those are.
pub proof fn lemma_resident_cached_or_pending<I>(
    d: LoadedDir<I>,
    policy: ImageLoadingPolicy,
    active: Seq<usize>,
    pivot: int,
    shown: int,
    cache: Map<usize, I>,
    pending: Set<usize>,
    requests: Seq<usize>,
    k: usize,
)
    requires
        d.reconciled(policy, active, pivot, shown, cache, pending, requests),
    ensures
        coll_of(active, policy.resident(policy.next_pivot(pivot, shown), active.len() as int)).contains(k)
            <==> d.cache_view().contains_key(k) || d.pending_view().contains(k),
{
    let res = coll_of(active, policy.resident(policy.next_pivot(pivot, shown), active.len() as int));
    assert(res.to_set().contains(k) == res.contains(k));
}

} // verus!
