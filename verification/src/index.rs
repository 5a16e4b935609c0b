//! The torrent registry: torrents keyed by `info_hash`, listed in the order
//! in which they were added.

use vstd::prelude::*;
use vstd::hash_map::StringHashMap;
use crate::models::{Torrent, TorrentView};
use crate::text::{contains_text, is_substring, lemma_empty_is_substring};

verus! {

/// Some torrent of `s` has the hash `h`.
pub open spec fn has_hash(s: Seq<TorrentView>, h: Seq<char>) -> bool {
    exists|i: int| 0 <= i < s.len() && (#[trigger] s[i]).info_hash == h
}

/// No two torrents of `s` share an `info_hash`.
pub open spec fn distinct_hashes(s: Seq<TorrentView>) -> bool {
    forall|i: int, j: int|
        0 <= i < j < s.len() ==> (#[trigger] s[i]).info_hash != (#[trigger] s[j]).info_hash
}

/// The registry `s` after an attempt to add `t`: unchanged where the hash of
/// `t` is taken, else `s` with `t` at the end.
pub open spec fn with_added(s: Seq<TorrentView>, t: TorrentView) -> Seq<TorrentView> {
    if has_hash(s, t.info_hash) {
        s
    } else {
        s.push(t)
    }
}

/// The registry `s` after attempts to add each torrent of `ts`, first to last.
pub open spec fn with_all_added(s: Seq<TorrentView>, ts: Seq<TorrentView>) -> Seq<TorrentView>
    decreases ts.len(),
{
    if ts.len() == 0 {
        s
    } else {
        with_added(with_all_added(s, ts.drop_last()), ts.last())
    }
}

/// `query` is a substring of the name or of the hash of `t`.
pub open spec fn matches_query(t: TorrentView, query: Seq<char>) -> bool {
    is_substring(query, t.name) || is_substring(query, t.info_hash)
}

/// The torrents of `s` that match `query`, in the order of `s`.
pub open spec fn matching(s: Seq<TorrentView>, query: Seq<char>) -> Seq<TorrentView> {
    s.filter(|t: TorrentView| matches_query(t, query))
}

/// The views of borrowed torrents, one by one.
pub open spec fn borrowed_views(ts: Seq<&Torrent>) -> Seq<TorrentView> {
    ts.map_values(|t: &Torrent| t@)
}

/// The views of stored torrents, one by one.
spec fn stored_views(ts: Seq<Torrent>) -> Seq<TorrentView> {
    ts.map_values(|t: Torrent| t@)
}

/// The torrent registry. Its view is the sequence of its torrents in the
/// order of their addition.
pub struct Index {
    torrents: Vec<Torrent>,
    slots: StringHashMap<usize>,
}

impl View for Index {
    type V = Seq<TorrentView>;

    closed spec fn view(&self) -> Seq<TorrentView> {
        stored_views(self.torrents@)
    }
}

impl Index {
    /// `slots` maps exactly the hashes of the stored torrents, each to the
    /// position of its torrent.
    #[verifier::type_invariant]
    spec fn consistent(&self) -> bool {
        &&& forall|i: int|
            0 <= i < self.torrents@.len() ==> {
                &&& self.slots@.contains_key((#[trigger] self.torrents@[i]).info_hash@)
                &&& self.slots@[self.torrents@[i].info_hash@] == i
            }
        &&& forall|h: Seq<char>| #[trigger]
            self.slots@.contains_key(h) ==> {
                &&& self.slots@[h] < self.torrents@.len()
                &&& self.torrents@[self.slots@[h] as int].info_hash@ == h
            }
    }

    proof fn lemma_hashes_are_distinct(&self)
        requires
            self.consistent(),
        ensures
            distinct_hashes(self@),
    {
        assert forall|i: int, j: int| 0 <= i < j < self@.len() implies (#[trigger] self@[i]).info_hash
            != (#[trigger] self@[j]).info_hash by {
            assert(self.torrents@[i].info_hash@ == self@[i].info_hash);
            assert(self.torrents@[j].info_hash@ == self@[j].info_hash);
        }
    }

    proof fn lemma_slots_know_hashes(&self, h: Seq<char>)
        requires
            self.consistent(),
        ensures
            self.slots@.contains_key(h) <==> has_hash(self@, h),
    {
        if self.slots@.contains_key(h) {
            let i = self.slots@[h] as int;
            assert(self@[i].info_hash == h);
        }
        if has_hash(self@, h) {
            let i = choose|i: int| 0 <= i < self@.len() && (#[trigger] self@[i]).info_hash == h;
            assert(self.torrents@[i].info_hash@ == h);
        }
    }

    /// An empty registry.
    pub fn new() -> (index: Index)
        ensures
            index@ == Seq::<TorrentView>::empty(),
    {
        let index = Index { torrents: Vec::new(), slots: StringHashMap::new() };
        assert(index@ =~= Seq::<TorrentView>::empty());
        index
    }

    /// Adds `torrent` unless a torrent with its hash is registered already.
    /// Returns whether it was added; a refused torrent changes nothing.
    pub fn add_torrent(&mut self, torrent: Torrent) -> (added: bool)
        ensures
            added == !has_hash(old(self)@, torrent@.info_hash),
            final(self)@ == with_added(old(self)@, torrent@),
            distinct_hashes(final(self)@),
    {
        proof {
            use_type_invariant(&*self);
            self.lemma_slots_know_hashes(torrent@.info_hash);
            self.lemma_hashes_are_distinct();
        }
        if self.slots.contains_key(torrent.info_hash.as_str()) {
            false
        } else {
            // Both fields change together, and the invariant holds of whole
            // registries only: the registry is taken apart and put together.
            let mut taken = Index::new();
            std::mem::swap(self, &mut taken);
            let Index { mut torrents, mut slots } = taken;
            let key = torrent.info_hash.clone();
            let at = torrents.len();
            slots.insert(key, at);
            torrents.push(torrent);
            *self = Index { torrents, slots };
            proof {
                assert(self@ =~= old(self)@.push(torrent@));
                self.lemma_hashes_are_distinct();
            }
            true
        }
    }

    /// All torrents, in the order of their addition.
    pub fn list_torrents(&self) -> (listed: Vec<&Torrent>)
        ensures
            borrowed_views(listed@) == self@,
            distinct_hashes(self@),
    {
        proof {
            use_type_invariant(self);
            self.lemma_hashes_are_distinct();
        }
        let mut listed: Vec<&Torrent> = Vec::new();
        let mut i: usize = 0;
        while i < self.torrents.len()
            invariant
                i <= self.torrents.len(),
                listed@.len() == i,
                forall|j: int| 0 <= j < i ==> *listed@[j] == self.torrents@[j],
            decreases self.torrents.len() - i,
        {
            listed.push(&self.torrents[i]);
            i += 1;
        }
        assert(borrowed_views(listed@) =~= self@);
        listed
    }

    /// The torrents whose name or hash contains `query`, in the order of
    /// their addition. The empty query matches every torrent.
    pub fn search_torrents(&self, query: &str) -> (hits: Vec<&Torrent>)
        ensures
            borrowed_views(hits@) == matching(self@, query@),
            query@.len() == 0 ==> borrowed_views(hits@) == self@,
    {
        let mut hits: Vec<&Torrent> = Vec::new();
        let mut i: usize = 0;
        while i < self.torrents.len()
            invariant
                i <= self.torrents.len(),
                borrowed_views(hits@) == matching(self@.take(i as int), query@),
            decreases self.torrents.len() - i,
        {
            let t = &self.torrents[i];
            proof {
                lemma_matching_step(self@, query@, i as int);
            }
            if contains_text(t.name.as_str(), query) || contains_text(t.info_hash.as_str(), query) {
                let ghost before = hits@;
                hits.push(t);
                assert forall|j: int| 0 <= j < before.len() implies borrowed_views(hits@)[j]
                    == borrowed_views(before)[j] by {
                    assert(hits@[j] == before[j]);
                }
                assert(borrowed_views(hits@) =~= borrowed_views(before).push(t@));
            }
            i += 1;
        }
        proof {
            assert(self@.take(i as int) =~= self@);
            if query@.len() == 0 {
                lemma_empty_query_matches_all(self@, query@);
            }
        }
        hits
    }

    /// The torrent with the hash `info_hash`, if one is registered.
    pub fn get_torrent(&self, info_hash: &str) -> (found: Option<&Torrent>)
        ensures
            match found {
                Some(t) => t@.info_hash == info_hash@ && self@.contains(t@),
                None => !has_hash(self@, info_hash@),
            },
            distinct_hashes(self@),
    {
        proof {
            use_type_invariant(self);
            self.lemma_slots_know_hashes(info_hash@);
            self.lemma_hashes_are_distinct();
        }
        match self.slots.get(info_hash) {
            Some(at) => {
                let t = &self.torrents[*at];
                assert(self@[*at as int] == t@);
                Some(t)
            },
            None => None,
        }
    }
}

/// One more torrent of `s` is matched: it joins the matches if and only if it
/// matches the query.
proof fn lemma_matching_step(s: Seq<TorrentView>, query: Seq<char>, i: int)
    requires
        0 <= i < s.len(),
    ensures
        matching(s.take(i + 1), query) == if matches_query(s[i], query) {
            matching(s.take(i), query).push(s[i])
        } else {
            matching(s.take(i), query)
        },
{
    reveal(Seq::filter);
    assert(s.take(i + 1).drop_last() =~= s.take(i));
}

/// A search finds the torrents of the registry that match the query, and
/// nothing else.
pub proof fn lemma_matching_holds_the_matches(s: Seq<TorrentView>, query: Seq<char>, t: TorrentView)
    ensures
        matching(s, query).contains(t) <==> s.contains(t) && matches_query(t, query),
    decreases s.len(),
{
    reveal(Seq::filter);
    if s.len() > 0 {
        let front = s.drop_last();
        let last = s.last();
        lemma_matching_holds_the_matches(front, query, t);
        let found = matching(front, query);
        assert(s.contains(t) <==> front.contains(t) || last == t) by {
            if s.contains(t) {
                let i = choose|i: int| 0 <= i < s.len() && s[i] == t;
                if i < front.len() {
                    assert(front[i] == t);
                }
            }
            if front.contains(t) {
                let i = choose|i: int| 0 <= i < front.len() && front[i] == t;
                assert(s[i] == t);
            }
            assert(s[s.len() - 1] == last);
        }
        if matches_query(last, query) {
            let grown = found.push(last);
            assert(grown.contains(t) <==> found.contains(t) || last == t) by {
                if grown.contains(t) {
                    let i = choose|i: int| 0 <= i < grown.len() && grown[i] == t;
                    if i < found.len() {
                        assert(found[i] == t);
                    }
                }
                if found.contains(t) {
                    let i = choose|i: int| 0 <= i < found.len() && found[i] == t;
                    assert(grown[i] == t);
                }
                assert(grown[found.len() as int] == last);
            }
        }
    }
}

/// An empty query matches every torrent of a registry.
pub proof fn lemma_empty_query_matches_all(s: Seq<TorrentView>, query: Seq<char>)
    requires
        query.len() == 0,
    ensures
        matching(s, query) == s,
    decreases s.len(),
{
    reveal(Seq::filter);
    if s.len() > 0 {
        lemma_empty_query_matches_all(s.drop_last(), query);
        assert(query =~= Seq::<char>::empty());
        lemma_empty_is_substring(s.last().name);
        assert(s.drop_last().push(s.last()) =~= s);
    }
}

/// Of two torrents with one hash that are added in turn to an empty registry,
/// the first is accepted and stays alone; the second is refused.
pub proof fn lemma_same_hash_keeps_first(a: TorrentView, b: TorrentView)
    requires
        a.info_hash == b.info_hash,
    ensures
        !has_hash(Seq::<TorrentView>::empty(), a.info_hash),
        has_hash(with_added(Seq::<TorrentView>::empty(), a), b.info_hash),
        with_added(with_added(Seq::<TorrentView>::empty(), a), b) == seq![a],
        with_all_added(Seq::<TorrentView>::empty(), seq![a, b]) == seq![a],
{
    let none = Seq::<TorrentView>::empty();
    let one = with_added(none, a);
    assert(one =~= seq![a]);
    assert(one[0].info_hash == b.info_hash);
    let both = seq![a, b];
    assert(both.drop_last() =~= seq![a]);
    assert(seq![a].drop_last() =~= none);
    assert(with_all_added(none, none) == none);
    assert(with_all_added(none, seq![a]) == one);
}

/// Torrents with pairwise distinct hashes that are added in turn to an empty
/// registry are all accepted: the registry then lists exactly them, in their
/// order. So a registry is restored by adding what it lists to an empty one.
pub proof fn lemma_distinct_hashes_all_kept(ts: Seq<TorrentView>)
    requires
        distinct_hashes(ts),
    ensures
        with_all_added(Seq::<TorrentView>::empty(), ts) == ts,
        with_all_added(Seq::<TorrentView>::empty(), ts).len() == ts.len(),
    decreases ts.len(),
{
    if ts.len() > 0 {
        let front = ts.drop_last();
        lemma_distinct_hashes_all_kept(front);
        if has_hash(front, ts.last().info_hash) {
            let i = choose|i: int| 0 <= i < front.len() && (#[trigger] front[i]).info_hash == ts.last().info_hash;
            assert(ts[i].info_hash != ts[ts.len() - 1].info_hash);
        }
        assert(front.push(ts.last()) =~= ts);
    } else {
        assert(ts =~= Seq::<TorrentView>::empty());
    }
}

/// Whatever is added to a registry without a repeated hash, no hash is
/// repeated afterwards.
pub proof fn lemma_adding_keeps_hashes_distinct(s: Seq<TorrentView>, ts: Seq<TorrentView>)
    requires
        distinct_hashes(s),
    ensures
        distinct_hashes(with_all_added(s, ts)),
    decreases ts.len(),
{
    if ts.len() > 0 {
        let before = with_all_added(s, ts.drop_last());
        lemma_adding_keeps_hashes_distinct(s, ts.drop_last());
        let t = ts.last();
        if !has_hash(before, t.info_hash) {
            let after = before.push(t);
            assert forall|i: int, j: int| 0 <= i < j < after.len() implies (#[trigger] after[i]).info_hash
                != (#[trigger] after[j]).info_hash by {
                assert(after[i] == before[i]);
                if j < before.len() {
                    assert(after[j] == before[j]);
                }
            }
        }
    }
}

} // verus!
