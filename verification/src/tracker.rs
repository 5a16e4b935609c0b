//! The peer registry: for each torrent hash the peers that announced for it,
//! in the order of their announces. The groups themselves stand in the order
//! in which their first peer announced.

use vstd::prelude::*;
use vstd::hash_map::StringHashMap;
use crate::models::{Peer, PeerView};

verus! {

/// The peers announced for one torrent, as a mathematical value.
pub struct SwarmView {
    pub info_hash: Seq<char>,
    pub peers: Seq<PeerView>,
}

/// Some swarm of `s` is that of the hash `h`.
pub open spec fn has_swarm(s: Seq<SwarmView>, h: Seq<char>) -> bool {
    exists|g: int| 0 <= g < s.len() && (#[trigger] s[g]).info_hash == h
}

/// The position in `s` of the swarm of the hash `h`, where there is one.
pub open spec fn swarm_position(s: Seq<SwarmView>, h: Seq<char>) -> int {
    choose|g: int| 0 <= g < s.len() && (#[trigger] s[g]).info_hash == h
}

/// The peers that `s` holds for the hash `h`: none where `h` has no swarm.
pub open spec fn peers_of(s: Seq<SwarmView>, h: Seq<char>) -> Seq<PeerView> {
    if has_swarm(s, h) {
        s[swarm_position(s, h)].peers
    } else {
        Seq::empty()
    }
}

/// Some peer of `peers` has the identifier `id`.
pub open spec fn has_peer_id(peers: Seq<PeerView>, id: Seq<char>) -> bool {
    exists|j: int| 0 <= j < peers.len() && (#[trigger] peers[j]).peer_id == id
}

/// The peer at position `j` of `peers` has the identifier `id`, and no other
/// peer of `peers` has it.
pub open spec fn is_sole_holder(peers: Seq<PeerView>, id: Seq<char>, j: int) -> bool {
    &&& 0 <= j < peers.len()
    &&& peers[j].peer_id == id
    &&& forall|k: int| 0 <= k < peers.len() && (#[trigger] peers[k]).peer_id == id ==> k == j
}

/// The registry `s` after `p` announced. A peer whose identifier is already
/// in the swarm of its hash changes nothing, whatever its status. Any other
/// peer joins the end of that swarm, which is opened at the end of `s` where
/// the hash had none.
pub open spec fn with_announced(s: Seq<SwarmView>, p: PeerView) -> Seq<SwarmView> {
    if has_swarm(s, p.info_hash) {
        let g = swarm_position(s, p.info_hash);
        if has_peer_id(s[g].peers, p.peer_id) {
            s
        } else {
            s.update(g, SwarmView { info_hash: s[g].info_hash, peers: s[g].peers.push(p) })
        }
    } else {
        s.push(SwarmView { info_hash: p.info_hash, peers: seq![p] })
    }
}

/// The registry `s` after each peer of `ps` announced, first to last.
pub open spec fn with_all_announced(s: Seq<SwarmView>, ps: Seq<PeerView>) -> Seq<SwarmView>
    decreases ps.len(),
{
    if ps.len() == 0 {
        s
    } else {
        with_announced(with_all_announced(s, ps.drop_last()), ps.last())
    }
}

/// The peers of all swarms of `s`, swarm after swarm.
pub open spec fn all_peers(s: Seq<SwarmView>) -> Seq<PeerView>
    decreases s.len(),
{
    if s.len() == 0 {
        Seq::empty()
    } else {
        all_peers(s.drop_last()) + s.last().peers
    }
}

/// A swarm as the registry keeps it: it has a peer, its peers announced for
/// its hash, and no two of them share an identifier.
pub open spec fn well_formed_swarm(g: SwarmView) -> bool {
    &&& g.peers.len() > 0
    &&& forall|j: int| 0 <= j < g.peers.len() ==> (#[trigger] g.peers[j]).info_hash == g.info_hash
    &&& forall|j: int, k: int|
        0 <= j < k < g.peers.len() ==> (#[trigger] g.peers[j]).peer_id != (
        #[trigger] g.peers[k]).peer_id
}

/// The swarms of a registry: each well formed, no two for the same hash.
pub open spec fn well_grouped(s: Seq<SwarmView>) -> bool {
    &&& forall|g: int| 0 <= g < s.len() ==> well_formed_swarm(#[trigger] s[g])
    &&& forall|g: int, k: int|
        0 <= g < k < s.len() ==> (#[trigger] s[g]).info_hash != (#[trigger] s[k]).info_hash
}

/// The views of borrowed peers, one by one.
pub open spec fn borrowed_peer_views(ps: Seq<&Peer>) -> Seq<PeerView> {
    ps.map_values(|p: &Peer| p@)
}

/// The views of stored peers, one by one.
spec fn stored_peer_views(ps: Seq<Peer>) -> Seq<PeerView> {
    ps.map_values(|p: Peer| p@)
}

struct Swarm {
    info_hash: String,
    peers: Vec<Peer>,
}

impl View for Swarm {
    type V = SwarmView;

    closed spec fn view(&self) -> SwarmView {
        SwarmView { info_hash: self.info_hash@, peers: stored_peer_views(self.peers@) }
    }
}

/// The peer registry. Its view is the sequence of its swarms.
pub struct Tracker {
    swarms: Vec<Swarm>,
    slots: StringHashMap<usize>,
}

impl View for Tracker {
    type V = Seq<SwarmView>;

    closed spec fn view(&self) -> Seq<SwarmView> {
        self.swarms@.map_values(|g: Swarm| g@)
    }
}

/// In a well grouped registry the swarm of a hash stands at one position only.
pub proof fn lemma_swarm_position_is_unique(s: Seq<SwarmView>, g: int)
    requires
        well_grouped(s),
        0 <= g < s.len(),
    ensures
        has_swarm(s, s[g].info_hash),
        swarm_position(s, s[g].info_hash) == g,
        peers_of(s, s[g].info_hash) == s[g].peers,
{
    let h = s[g].info_hash;
    let at = swarm_position(s, h);
    assert(0 <= at < s.len() && s[at].info_hash == h);
    if at < g {
        assert(s[at].info_hash != s[g].info_hash);
    } else if g < at {
        assert(s[g].info_hash != s[at].info_hash);
    }
}

impl Tracker {
    /// The swarms are well grouped, and `slots` maps exactly their hashes,
    /// each to the position of its swarm.
    #[verifier::type_invariant]
    spec fn consistent(&self) -> bool {
        &&& well_grouped(self@)
        &&& forall|g: int|
            0 <= g < self.swarms@.len() ==> {
                &&& self.slots@.contains_key((#[trigger] self.swarms@[g]).info_hash@)
                &&& self.slots@[self.swarms@[g].info_hash@] == g
            }
        &&& forall|h: Seq<char>| #[trigger]
            self.slots@.contains_key(h) ==> {
                &&& self.slots@[h] < self.swarms@.len()
                &&& self.swarms@[self.slots@[h] as int].info_hash@ == h
            }
    }

    proof fn lemma_slots_know_swarms(&self, h: Seq<char>)
        requires
            self.consistent(),
        ensures
            self.slots@.contains_key(h) <==> has_swarm(self@, h),
            self.slots@.contains_key(h) ==> swarm_position(self@, h) == self.slots@[h],
    {
        if self.slots@.contains_key(h) {
            let g = self.slots@[h] as int;
            assert(self@[g].info_hash == h);
            lemma_swarm_position_is_unique(self@, g);
        }
        if has_swarm(self@, h) {
            let g = swarm_position(self@, h);
            assert(self.swarms@[g].info_hash@ == h);
        }
    }

    /// An empty registry.
    pub fn new() -> (tracker: Tracker)
        ensures
            tracker@ == Seq::<SwarmView>::empty(),
    {
        let tracker = Tracker { swarms: Vec::new(), slots: StringHashMap::new() };
        assert(tracker@ =~= Seq::<SwarmView>::empty());
        tracker
    }

    /// Registers `peer` in the swarm of its hash, unless a peer with its
    /// identifier is in that swarm already. Returns whether it was registered;
    /// a refused announce changes nothing, not even the status on record.
    pub fn announce_peer(&mut self, peer: Peer) -> (added: bool)
        ensures
            added == !has_peer_id(peers_of(old(self)@, peer@.info_hash), peer@.peer_id),
            final(self)@ == with_announced(old(self)@, peer@),
            well_grouped(final(self)@),
    {
        proof {
            use_type_invariant(&*self);
            self.lemma_slots_know_swarms(peer@.info_hash);
        }
        let slot: Option<usize> = match self.slots.get(peer.info_hash.as_str()) {
            Some(at) => Some(*at),
            None => None,
        };
        match slot {
            Some(g) => {
                let ghost group = self@[g as int];
                assert(group.peers == stored_peer_views(self.swarms@[g as int].peers@));
                let n = self.swarms[g].peers.len();
                let mut j: usize = 0;
                while j < n
                    invariant
                        j <= n,
                        *self == *old(self),
                        self.consistent(),
                        has_swarm(self@, peer@.info_hash),
                        swarm_position(self@, peer@.info_hash) == g,
                        group == self@[g as int],
                        g < self.swarms@.len(),
                        n == self.swarms@[g as int].peers@.len(),
                        group.peers == stored_peer_views(self.swarms@[g as int].peers@),
                        forall|k: int| 0 <= k < j ==> (#[trigger] group.peers[k]).peer_id != peer@.peer_id,
                    decreases n - j,
                {
                    if self.swarms[g].peers[j].peer_id == peer.peer_id {
                        assert(group.peers[j as int].peer_id == peer@.peer_id);
                        return false;
                    }
                    j += 1;
                }
                // The invariant holds of whole registries only: the registry
                // is taken apart, changed, and put together.
                let mut taken = Tracker::new();
                std::mem::swap(self, &mut taken);
                let Tracker { mut swarms, slots } = taken;
                swarms[g].peers.push(peer);
                proof {
                    let next = Tracker { swarms, slots };
                    let grown = SwarmView { info_hash: group.info_hash, peers: group.peers.push(peer@) };
                    assert(next.swarms@[g as int]@.peers =~= grown.peers);
                    assert(next@ =~= old(self)@.update(g as int, grown));
                    lemma_announce_keeps_well_grouped(old(self)@, peer@);
                    assert forall|k: int| 0 <= k < next.swarms@.len() implies {
                        &&& next.slots@.contains_key((#[trigger] next.swarms@[k]).info_hash@)
                        &&& next.slots@[next.swarms@[k].info_hash@] == k
                    } by {
                        assert(next.swarms@[k].info_hash@ == old(self).swarms@[k].info_hash@);
                    }
                    assert(next.consistent());
                }
                *self = Tracker { swarms, slots };
                true
            },
            None => {
                let mut taken = Tracker::new();
                std::mem::swap(self, &mut taken);
                let Tracker { mut swarms, mut slots } = taken;
                let key = peer.info_hash.clone();
                let info_hash = peer.info_hash.clone();
                let at = swarms.len();
                let mut peers: Vec<Peer> = Vec::new();
                peers.push(peer);
                slots.insert(key, at);
                swarms.push(Swarm { info_hash, peers });
                proof {
                    let next = Tracker { swarms, slots };
                    let opened = SwarmView { info_hash: peer@.info_hash, peers: seq![peer@] };
                    assert(next.swarms@[at as int]@.peers =~= opened.peers);
                    assert(next@ =~= old(self)@.push(opened));
                    lemma_announce_keeps_well_grouped(old(self)@, peer@);
                    assert(next.consistent());
                }
                *self = Tracker { swarms, slots };
                true
            },
        }
    }

    /// The peers announced for `info_hash`, in the order of their announces.
    /// A hash for which nobody announced has none.
    pub fn list_peers(&self, info_hash: &str) -> (listed: Vec<&Peer>)
        ensures
            borrowed_peer_views(listed@) == peers_of(self@, info_hash@),
            !has_swarm(self@, info_hash@) ==> listed@.len() == 0,
            well_grouped(self@),
    {
        proof {
            use_type_invariant(self);
            self.lemma_slots_know_swarms(info_hash@);
        }
        let mut listed: Vec<&Peer> = Vec::new();
        match self.slots.get(info_hash) {
            Some(at) => {
                let group = &self.swarms[*at];
                let mut j: usize = 0;
                while j < group.peers.len()
                    invariant
                        j <= group.peers.len(),
                        listed@.len() == j,
                        forall|k: int| 0 <= k < j ==> *listed@[k] == group.peers@[k],
                    decreases group.peers.len() - j,
                {
                    listed.push(&group.peers[j]);
                    j += 1;
                }
                assert(borrowed_peer_views(listed@) =~= self@[*at as int].peers);
            },
            None => {
                assert(borrowed_peer_views(listed@) =~= Seq::<PeerView>::empty());
            },
        }
        listed
    }

    /// The peers of all swarms, swarm after swarm.
    pub fn all_peers(&self) -> (listed: Vec<&Peer>)
        ensures
            borrowed_peer_views(listed@) == all_peers(self@),
            well_grouped(self@),
    {
        proof {
            use_type_invariant(self);
        }
        let mut listed: Vec<&Peer> = Vec::new();
        let mut g: usize = 0;
        assert(self@.take(0) =~= Seq::<SwarmView>::empty());
        assert(borrowed_peer_views(listed@) =~= Seq::<PeerView>::empty());
        while g < self.swarms.len()
            invariant
                g <= self.swarms.len(),
                borrowed_peer_views(listed@) == all_peers(self@.take(g as int)),
            decreases self.swarms.len() - g,
        {
            let group = &self.swarms[g];
            let ghost before = listed@;
            let mut j: usize = 0;
            while j < group.peers.len()
                invariant
                    j <= group.peers.len(),
                    listed@.len() == before.len() + j,
                    forall|k: int| 0 <= k < before.len() ==> listed@[k] == before[k],
                    forall|k: int| 0 <= k < j ==> *listed@[before.len() + k] == group.peers@[k],
                decreases group.peers.len() - j,
            {
                listed.push(&group.peers[j]);
                j += 1;
            }
            proof {
                assert(self@.take(g + 1).drop_last() =~= self@.take(g as int));
                assert(self@.take(g + 1).last() == self@[g as int]);
                assert(borrowed_peer_views(listed@) =~= borrowed_peer_views(before)
                    + self@[g as int].peers);
            }
            g += 1;
        }
        assert(self@.take(g as int) =~= self@);
        listed
    }
}

/// An announce keeps a registry well grouped.
pub proof fn lemma_announce_keeps_well_grouped(s: Seq<SwarmView>, p: PeerView)
    requires
        well_grouped(s),
    ensures
        well_grouped(with_announced(s, p)),
{
    let after = with_announced(s, p);
    if has_swarm(s, p.info_hash) {
        let g = swarm_position(s, p.info_hash);
        if !has_peer_id(s[g].peers, p.peer_id) {
            assert(well_formed_swarm(s[g]));
            assert forall|k: int| 0 <= k < after.len() implies well_formed_swarm(
                #[trigger] after[k],
            ) by {
                if k != g {
                    assert(after[k] == s[k]);
                }
            }
            assert forall|a: int, b: int| 0 <= a < b < after.len() implies (#[trigger] after[a]).info_hash
                != (#[trigger] after[b]).info_hash by {
                assert(after[a].info_hash == s[a].info_hash);
                assert(after[b].info_hash == s[b].info_hash);
            }
        }
    } else {
        assert forall|k: int| 0 <= k < after.len() implies well_formed_swarm(#[trigger] after[k]) by {
            if k < s.len() {
                assert(after[k] == s[k]);
            }
        }
        assert forall|a: int, b: int| 0 <= a < b < after.len() implies (#[trigger] after[a]).info_hash
            != (#[trigger] after[b]).info_hash by {
            assert(after[a] == s[a]);
            if b < s.len() {
                assert(after[b] == s[b]);
            }
        }
    }
}

/// Whatever announces a well grouped registry receives, it stays well
/// grouped: no identifier occurs twice in a swarm, no hash has two swarms.
pub proof fn lemma_announces_keep_well_grouped(s: Seq<SwarmView>, ps: Seq<PeerView>)
    requires
        well_grouped(s),
    ensures
        well_grouped(with_all_announced(s, ps)),
    decreases ps.len(),
{
    if ps.len() > 0 {
        lemma_announces_keep_well_grouped(s, ps.drop_last());
        lemma_announce_keeps_well_grouped(with_all_announced(s, ps.drop_last()), ps.last());
    }
}

/// After its announce, accepted or refused, the swarm of a peer's hash holds
/// a peer with its identifier.
pub proof fn lemma_announced_peer_is_known(s: Seq<SwarmView>, p: PeerView)
    requires
        well_grouped(s),
    ensures
        has_swarm(with_announced(s, p), p.info_hash),
        has_peer_id(peers_of(with_announced(s, p), p.info_hash), p.peer_id),
        s.len() == 0 ==> peers_of(with_announced(s, p), p.info_hash) == seq![p],
{
    let after = with_announced(s, p);
    lemma_announce_keeps_well_grouped(s, p);
    if has_swarm(s, p.info_hash) {
        let g = swarm_position(s, p.info_hash);
        assert(after[g].info_hash == p.info_hash);
        lemma_swarm_position_is_unique(after, g);
        if !has_peer_id(s[g].peers, p.peer_id) {
            assert(after[g].peers[s[g].peers.len() as int].peer_id == p.peer_id);
        }
    } else {
        let g = s.len() as int;
        assert(after[g].info_hash == p.info_hash);
        lemma_swarm_position_is_unique(after, g);
        assert(after[g].peers[0].peer_id == p.peer_id);
    }
}

/// In a well formed swarm an identifier stands at one position at most.
pub proof fn lemma_peer_id_is_unique(swarm: SwarmView, j: int, k: int)
    requires
        well_formed_swarm(swarm),
        0 <= j < swarm.peers.len(),
        0 <= k < swarm.peers.len(),
        swarm.peers[j].peer_id == swarm.peers[k].peer_id,
    ensures
        j == k,
{
    if j < k {
        assert(swarm.peers[j].peer_id != swarm.peers[k].peer_id);
    } else if k < j {
        assert(swarm.peers[k].peer_id != swarm.peers[j].peer_id);
    }
}

/// Of two peers with one hash and one identifier that announce in turn, the
/// second is refused and changes nothing; the swarm of that hash then holds
/// exactly one peer with that identifier. In a registry that was empty, that
/// peer is the first of the two.
pub proof fn lemma_repeated_announce_is_refused(s: Seq<SwarmView>, a: PeerView, b: PeerView)
    requires
        well_grouped(s),
        a.info_hash == b.info_hash,
        a.peer_id == b.peer_id,
    ensures
        has_peer_id(peers_of(with_announced(s, a), b.info_hash), b.peer_id),
        with_announced(with_announced(s, a), b) == with_announced(s, a),
        exists|j: int|
            is_sole_holder(
                peers_of(with_announced(with_announced(s, a), b), a.info_hash),
                a.peer_id,
                j,
            ),
        s.len() == 0 ==> peers_of(with_announced(with_announced(s, a), b), a.info_hash) == seq![a],
{
    let once = with_announced(s, a);
    lemma_announced_peer_is_known(s, a);
    lemma_announce_keeps_well_grouped(s, a);
    let g = swarm_position(once, a.info_hash);
    let peers = once[g].peers;
    assert(peers_of(once, a.info_hash) == peers);
    assert(with_announced(once, b) == once);
    let j = choose|j: int| 0 <= j < peers.len() && (#[trigger] peers[j]).peer_id == a.peer_id;
    assert(is_sole_holder(peers, a.peer_id, j)) by {
        assert forall|k: int| 0 <= k < peers.len() && (#[trigger] peers[k]).peer_id
            == a.peer_id implies k == j by {
            lemma_peer_id_is_unique(once[g], j, k);
        }
    }
}

/// Announces open no swarm but for the hashes of the peers that announce.
pub proof fn lemma_swarms_come_from_announces(s: Seq<SwarmView>, ps: Seq<PeerView>, h: Seq<char>)
    requires
        has_swarm(with_all_announced(s, ps), h),
    ensures
        has_swarm(s, h) || exists|i: int| 0 <= i < ps.len() && (#[trigger] ps[i]).info_hash == h,
    decreases ps.len(),
{
    if ps.len() > 0 {
        let before = with_all_announced(s, ps.drop_last());
        let p = ps.last();
        let after = with_announced(before, p);
        let g = choose|g: int| 0 <= g < after.len() && (#[trigger] after[g]).info_hash == h;
        if p.info_hash == h {
            assert(ps[ps.len() - 1].info_hash == h);
        } else {
            if g < before.len() {
                assert(before[g].info_hash == after[g].info_hash);
            }
            assert(has_swarm(before, h));
            lemma_swarms_come_from_announces(s, ps.drop_last(), h);
            if !has_swarm(s, h) {
                let i = choose|i: int| 0 <= i < ps.drop_last().len() && (#[trigger] ps.drop_last()[i]).info_hash == h;
                assert(ps[i].info_hash == h);
            }
        }
    }
}

/// A registry built from announces holds no peer for a hash for which none
/// of them was made.
pub proof fn lemma_unannounced_hash_has_no_peers(ps: Seq<PeerView>, h: Seq<char>)
    requires
        forall|i: int| 0 <= i < ps.len() ==> (#[trigger] ps[i]).info_hash != h,
    ensures
        peers_of(with_all_announced(Seq::<SwarmView>::empty(), ps), h) == Seq::<PeerView>::empty(),
{
    if has_swarm(with_all_announced(Seq::<SwarmView>::empty(), ps), h) {
        lemma_swarms_come_from_announces(Seq::<SwarmView>::empty(), ps, h);
    }
}

/// Announcing `ps` and then `qs` is announcing `ps + qs`.
pub proof fn lemma_announces_in_two_runs(s: Seq<SwarmView>, ps: Seq<PeerView>, qs: Seq<PeerView>)
    ensures
        with_all_announced(s, ps + qs) == with_all_announced(with_all_announced(s, ps), qs),
    decreases qs.len(),
{
    if qs.len() == 0 {
        assert(ps + qs =~= ps);
    } else {
        assert((ps + qs).drop_last() =~= ps + qs.drop_last());
        assert((ps + qs).last() == qs.last());
        lemma_announces_in_two_runs(s, ps, qs.drop_last());
    }
}

/// The first `n` peers of a well formed swarm, announced to a registry that
/// has no swarm for their hash, open that swarm at its end.
proof fn lemma_announces_rebuild_swarm(s: Seq<SwarmView>, swarm: SwarmView, n: int)
    requires
        well_formed_swarm(swarm),
        !has_swarm(s, swarm.info_hash),
        1 <= n <= swarm.peers.len(),
    ensures
        with_all_announced(s, swarm.peers.take(n)) == s.push(
            SwarmView { info_hash: swarm.info_hash, peers: swarm.peers.take(n) },
        ),
    decreases n,
{
    let ps = swarm.peers.take(n);
    let p = swarm.peers[n - 1];
    assert(ps.drop_last() =~= swarm.peers.take(n - 1));
    assert(ps.last() == p);
    assert(p.info_hash == swarm.info_hash);
    if n == 1 {
        assert(with_all_announced(s, ps.drop_last()) == s);
        assert(seq![p] =~= ps);
    } else {
        lemma_announces_rebuild_swarm(s, swarm, n - 1);
        let front = SwarmView { info_hash: swarm.info_hash, peers: swarm.peers.take(n - 1) };
        let before = s.push(front);
        assert(before[s.len() as int].info_hash == p.info_hash);
        let g = swarm_position(before, p.info_hash);
        if g < s.len() {
            assert(s[g].info_hash == swarm.info_hash);
        }
        assert(g == s.len());
        if has_peer_id(front.peers, p.peer_id) {
            let j = choose|j: int| 0 <= j < front.peers.len() && (#[trigger] front.peers[j]).peer_id == p.peer_id;
            assert(swarm.peers[j].peer_id != swarm.peers[n - 1].peer_id);
        }
        assert(front.peers.push(p) =~= ps);
        assert(before.update(g, SwarmView { info_hash: swarm.info_hash, peers: ps }) =~= s.push(
            SwarmView { info_hash: swarm.info_hash, peers: ps },
        ));
    }
}

/// A well grouped registry is restored by announcing all its peers, swarm
/// after swarm, to an empty registry: every hash gets back the peers it had,
/// in their order.
pub proof fn lemma_announcing_all_peers_restores(s: Seq<SwarmView>)
    requires
        well_grouped(s),
    ensures
        with_all_announced(Seq::<SwarmView>::empty(), all_peers(s)) == s,
        forall|h: Seq<char>|
            peers_of(with_all_announced(Seq::<SwarmView>::empty(), all_peers(s)), h) == peers_of(
                s,
                h,
            ),
    decreases s.len(),
{
    let none = Seq::<SwarmView>::empty();
    if s.len() > 0 {
        let front = s.drop_last();
        let swarm = s.last();
        assert forall|g: int| 0 <= g < front.len() implies well_formed_swarm(#[trigger] front[g]) by {
            assert(front[g] == s[g]);
        }
        assert forall|g: int, k: int| 0 <= g < k < front.len() implies (#[trigger] front[g]).info_hash
            != (#[trigger] front[k]).info_hash by {
            assert(front[g] == s[g] && front[k] == s[k]);
        }
        lemma_announcing_all_peers_restores(front);
        lemma_announces_in_two_runs(none, all_peers(front), swarm.peers);
        assert(well_formed_swarm(s[s.len() - 1]));
        if has_swarm(front, swarm.info_hash) {
            let g = choose|g: int| 0 <= g < front.len() && (#[trigger] front[g]).info_hash == swarm.info_hash;
            assert(s[g].info_hash != s[s.len() - 1].info_hash);
        }
        lemma_announces_rebuild_swarm(front, swarm, swarm.peers.len() as int);
        assert(swarm.peers.take(swarm.peers.len() as int) =~= swarm.peers);
        assert(front.push(swarm) =~= s);
    } else {
        assert(s =~= none);
    }
}

} // verus!
