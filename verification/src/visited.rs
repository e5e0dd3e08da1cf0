//! The set of URLs that a crawl has claimed.

use vstd::hash_set::StringHashSet;
use vstd::prelude::*;

verus! {

/// The URLs claimed so far in one crawl. It only grows: a URL, once claimed,
/// stays claimed.
pub struct VisitedSet {
    index: StringHashSet,
    order: Vec<String>,
}

impl View for VisitedSet {
    type V = Set<Seq<char>>;

    /// The claimed URLs as a set.
    open spec fn view(&self) -> Set<Seq<char>> {
        self.claimed().to_set()
    }
}

impl VisitedSet {
    /// The claimed URLs in the order of their claims.
    pub closed spec fn claimed(&self) -> Seq<Seq<char>> {
        self.order.deep_view()
    }

    /// The hash index holds exactly the claimed URLs.
    pub closed spec fn indexed(&self) -> bool {
        self.index@ == self.claimed().to_set()
    }

    /// Well-formedness: no URL was claimed twice.
    pub open spec fn wf(&self) -> bool {
        &&& self.indexed()
        &&& self.claimed().no_duplicates()
    }

    /// An empty set.
    pub fn new() -> (s: Self)
        ensures
            s.wf(),
            s.claimed() == Seq::<Seq<char>>::empty(),
    {
        let s = VisitedSet { index: StringHashSet::new(), order: Vec::new() };
        assert(s.claimed() =~= Seq::<Seq<char>>::empty());
        assert(s.index@ =~= s.claimed().to_set());
        s
    }

    /// Tests whether `url` is present and inserts it if not, in one step.
    /// Returns `true` exactly when the URL was absent: the caller then owns
    /// the processing of this URL, and no later claim of it succeeds.
    pub fn claim(&mut self, url: &str) -> (fresh: bool)
        requires
            old(self).wf(),
        ensures
            final(self).wf(),
            fresh == !old(self)@.contains(url@),
            final(self)@ == old(self)@.insert(url@),
            final(self).claimed() == after_claim(old(self).claimed(), url@),
    {
        if self.index.contains(url) {
            assert(self@ =~= old(self)@.insert(url@));
            false
        } else {
            let owned = url.to_owned();
            self.index.insert(owned.clone());
            self.order.push(owned);
            assert(self.claimed() =~= old(self).claimed().push(url@));
            assert(self.index@ =~= self.claimed().to_set()) by {
                lemma_push_to_set(old(self).claimed(), url@);
            }
            assert(self@ =~= old(self)@.insert(url@));
            true
        }
    }

    /// Whether `url` has been claimed.
    pub fn contains(&self, url: &str) -> (present: bool)
        requires
            self.wf(),
        ensures
            present == self@.contains(url@),
    {
        self.index.contains(url)
    }

    /// The number of claimed URLs.
    pub fn len(&self) -> (n: usize)
        requires
            self.wf(),
        ensures
            n == self.claimed().len(),
            n == self@.len(),
    {
        proof {
            self.claimed().unique_seq_to_set();
        }
        self.order.len()
    }

    /// Whether no URL has been claimed yet.
    pub fn is_empty(&self) -> (empty: bool)
        requires
            self.wf(),
        ensures
            empty == (self.claimed().len() == 0),
    {
        self.order.len() == 0
    }

    /// The claimed URLs, each once, in the order of their claims.
    pub fn into_urls(self) -> (urls: Vec<String>)
        requires
            self.wf(),
        ensures
            urls.deep_view() == self.claimed(),
            urls.deep_view().no_duplicates(),
    {
        self.order
    }
}

/// The claimed URLs after a claim of `url`: a URL that is present is not
/// added again.
pub open spec fn after_claim(claimed: Seq<Seq<char>>, url: Seq<char>) -> Seq<Seq<char>> {
    if claimed.contains(url) {
        claimed
    } else {
        claimed.push(url)
    }
}

/// The claimed URLs after the claims of `urls`, made one after another.
pub open spec fn after_claims(claimed: Seq<Seq<char>>, urls: Seq<Seq<char>>) -> Seq<Seq<char>>
    decreases urls.len(),
{
    if urls.len() == 0 {
        claimed
    } else {
        after_claim(after_claims(claimed, urls.drop_last()), urls.last())
    }
}

/// Whether, of the claims of `urls` made one after another, the one at
/// position `i` succeeds.
pub open spec fn claim_succeeds(claimed: Seq<Seq<char>>, urls: Seq<Seq<char>>, i: int) -> bool {
    !after_claims(claimed, urls.take(i)).contains(urls[i])
}

/// After some claims, the URLs present are those that were present before
/// and those that were claimed.
pub proof fn lemma_after_claims(claimed: Seq<Seq<char>>, urls: Seq<Seq<char>>, url: Seq<char>)
    ensures
        after_claims(claimed, urls).contains(url) <==> claimed.contains(url) || urls.contains(url),
    decreases urls.len(),
{
    if urls.len() > 0 {
        let front = urls.drop_last();
        let before = after_claims(claimed, front);
        lemma_after_claims(claimed, front, url);
        if urls.contains(url) {
            let i = choose|i: int| 0 <= i < urls.len() && urls[i] == url;
            if i < front.len() {
                assert(front[i] == url);
            }
        }
        if front.contains(url) {
            let i = choose|i: int| 0 <= i < front.len() && front[i] == url;
            assert(urls[i] == url);
        }
        assert(urls[urls.len() - 1] == urls.last());
        if before.contains(url) {
            let i = choose|i: int| 0 <= i < before.len() && before[i] == url;
            assert(before.push(urls.last())[i] == url);
        }
        if !before.contains(urls.last()) {
            let after = before.push(urls.last());
            assert(after[before.len() as int] == urls.last());
            if after.contains(url) {
                let i = choose|i: int| 0 <= i < after.len() && after[i] == url;
                if i < before.len() {
                    assert(before[i] == url);
                }
            }
        }
    }
}

/// Idempotent claim. Since a claim is one step on a set that its caller
/// holds alone, any number of callers make their claims in some order, one
/// after another. Whatever that order is, a claim succeeds exactly when its
/// URL was absent at the start and no earlier claim was of the same URL. So
/// of all the claims of one URL the first succeeds, if the URL was absent,
/// and every other fails.
pub proof fn law_claim_once(claimed: Seq<Seq<char>>, urls: Seq<Seq<char>>, i: int)
    requires
        0 <= i < urls.len(),
    ensures
        claim_succeeds(claimed, urls, i) <==> !claimed.contains(urls[i]) && forall|j: int|
            0 <= j < i ==> urls[j] != urls[i],
        forall|j: int|
            i < j < urls.len() && urls[j] == urls[i] ==> !#[trigger] claim_succeeds(
                claimed,
                urls,
                j,
            ),
{
    let earlier = urls.take(i);
    lemma_after_claims(claimed, earlier, urls[i]);
    if earlier.contains(urls[i]) {
        let j = choose|j: int| 0 <= j < earlier.len() && earlier[j] == urls[i];
        assert(urls[j] == urls[i]);
    }
    if exists|j: int| 0 <= j < i && urls[j] == urls[i] {
        let j = choose|j: int| 0 <= j < i && urls[j] == urls[i];
        assert(earlier[j] == urls[i]);
    }
    assert forall|j: int| i < j < urls.len() && urls[j] == urls[i] implies !#[trigger] claim_succeeds(
        claimed,
        urls,
        j,
    ) by {
        lemma_after_claims(claimed, urls.take(j), urls[j]);
        assert(urls.take(j)[i] == urls[i]);
    }
}

/// The set of a sequence with one more element is the set with that element
/// inserted.
pub proof fn lemma_push_to_set(s: Seq<Seq<char>>, u: Seq<char>)
    ensures
        s.push(u).to_set() == s.to_set().insert(u),
{
    assert forall|x: Seq<char>| s.push(u).to_set().contains(x) <==> s.to_set().insert(u).contains(
        x,
    ) by {
        if s.push(u).contains(x) {
            let i = choose|i: int| 0 <= i < s.push(u).len() && s.push(u)[i] == x;
            if i < s.len() {
                assert(s[i] == x);
            }
        }
        if s.contains(x) {
            let i = choose|i: int| 0 <= i < s.len() && s[i] == x;
            assert(s.push(u)[i] == x);
        }
        if x == u {
            assert(s.push(u)[s.len() as int] == x);
        }
    }
    assert(s.push(u).to_set() =~= s.to_set().insert(u));
}

} // verus!
