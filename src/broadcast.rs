//! The broadcast workload: a replicated set of integers spread by gossip.
//!
//! Each node keeps the values it has seen and, for each peer, the values it
//! believes that peer already has. On each gossip tick it sends every
//! neighbor all values that neighbor is not known to have, plus a random
//! sample of the rest.
use vstd::prelude::*;
use crate::message::{answers, Body, Event, GanError, Init, Message};
use crate::random::gen_ratio;

verus! {

/// The payloads of the broadcast workload.
pub enum Payload {
    Broadcast { message: u64 },
    BroadcastOk,
    Read,
    ReadOk { messages: Vec<u64> },
    Topology { topology: Vec<(String, Vec<String>)> },
    TopologyOk,
    Gossip { seen: Vec<u64> },
    GossipOk,
}

/// What the node injects into its own event stream.
pub enum InjectedPayload {
    Gossip,
}

/// The values of a sequence, as a set.
pub open spec fn set_of(s: Seq<u64>) -> Set<u64> {
    Set::new(|x: u64| s.contains(x))
}

/// The chars of each string, in order.
pub open spec fn names(s: Seq<String>) -> Seq<Seq<char>> {
    s.map_values(|e: String| e@)
}

/// Whether `v` holds `x`.
pub fn contains_value(v: &Vec<u64>, x: u64) -> (r: bool)
    ensures
        r == v@.contains(x),
{
    let mut i: usize = 0;
    while i < v.len()
        invariant
            i <= v@.len(),
            forall|j: int| 0 <= j < i ==> v@[j] != x,
        decreases v@.len() - i,
    {
        if v[i] == x {
            return true;
        }
        i = i + 1;
    }
    false
}

/// Adds to `v` each value of `xs` it does not hold yet, in order.
pub fn extend_values(v: &mut Vec<u64>, xs: &Vec<u64>)
    requires
        old(v)@.no_duplicates(),
    ensures
        final(v)@.no_duplicates(),
        set_of(final(v)@) == set_of(old(v)@).union(set_of(xs@)),
        final(v)@.len() >= old(v)@.len(),
        old(v)@.is_prefix_of(final(v)@),
{
    let mut i: usize = 0;
    while i < xs.len()
        invariant
            i <= xs@.len(),
            v@.no_duplicates(),
            set_of(v@) == set_of(old(v)@).union(set_of(xs@.subrange(0, i as int))),
            old(v)@.is_prefix_of(v@),
        decreases xs@.len() - i,
    {
        let x = xs[i];
        let ghost before = v@;
        if !contains_value(v, x) {
            v.push(x);
            proof {
                assert forall|a: int, b: int| 0 <= a < b < v@.len() implies v@[a] != v@[b] by {
                    if b == v@.len() - 1 {
                        assert(before.contains(before[a]));
                    }
                }
            }
        }
        proof {
            assert(set_of(v@) =~= set_of(old(v)@).union(set_of(xs@.subrange(0, i + 1)))) by {
                assert forall|y: u64| set_of(xs@.subrange(0, i + 1)).contains(y) <==>
                    (set_of(xs@.subrange(0, i as int)).contains(y) || y == x) by {
                    if xs@.subrange(0, i + 1).contains(y) {
                        let j = choose|j: int| 0 <= j < xs@.subrange(0, i + 1).len() && #[trigger] xs@.subrange(0, i + 1)[j] == y;
                        if j < i {
                            assert(xs@.subrange(0, i as int)[j] == y);
                        }
                    }
                    if xs@.subrange(0, i as int).contains(y) {
                        let j = choose|j: int| 0 <= j < xs@.subrange(0, i as int).len() && #[trigger] xs@.subrange(0, i as int)[j] == y;
                        assert(xs@.subrange(0, i + 1)[j] == y);
                    }
                    if y == x {
                        assert(xs@.subrange(0, i + 1)[i as int] == y);
                    }
                }
                assert forall|y: u64| set_of(v@).contains(y) <==> (set_of(before).contains(y) || y == x) by {
                    if v@.contains(y) && !before.contains(y) {
                        let j = choose|j: int| 0 <= j < v@.len() && #[trigger] v@[j] == y;
                        if j < before.len() {
                            assert(before[j] == y);
                        }
                    }
                    if before.contains(y) {
                        let j = choose|j: int| 0 <= j < before.len() && #[trigger] before[j] == y;
                        assert(v@[j] == y);
                    }
                    if y == x && !before.contains(y) {
                        assert(v@[v@.len() - 1] == y);
                    }
                }
                assert forall|y: u64| set_of(v@).contains(y) <==>
                    set_of(old(v)@).union(set_of(xs@.subrange(0, i + 1))).contains(y) by {
                    assert(set_of(before).contains(y) <==> set_of(old(v)@).union(set_of(xs@.subrange(0, i as int))).contains(y));
                }
            }
        }
        i = i + 1;
    }
    proof {
        assert(xs@.subrange(0, i as int) =~= xs@);
    }
}

proof fn lemma_names_push(s: Seq<String>, x: String)
    ensures
        names(s.push(x)) == names(s).push(x@),
{
    assert(names(s.push(x)) =~= names(s).push(x@));
}

/// The keys of a topology, in order.
pub open spec fn topology_keys(t: Seq<(String, Vec<String>)>) -> Seq<Seq<char>> {
    t.map_values(|e: (String, Vec<String>)| e.0@)
}

/// The entries of `rem` whose draw in `picks` came up true, in order.
pub open spec fn picked<A>(rem: Seq<A>, picks: Seq<bool>) -> Seq<A>
    decreases rem.len(),
{
    if rem.len() == 0 || picks.len() == 0 {
        Seq::empty()
    } else {
        let p = picked(rem.drop_last(), picks.drop_last());
        if picks.last() {
            p.push(rem.last())
        } else {
            p
        }
    }
}

/// The keys of `topology` that may join the neighborhood at random: neither
/// this node nor one of its given neighbors.
pub open spec fn remaining_spec(t: Seq<(String, Vec<String>)>, self_id: Seq<char>, seeds: Seq<Seq<char>>) -> Seq<Seq<char>> {
    topology_keys(t).filter(|k: Seq<char>| k != self_id && !seeds.contains(k))
}

/// The neighborhood chosen from the given neighbors `seeds` and the random
/// extra ones: those that are known peers other than this node, at most `cap`.
pub open spec fn neighborhood_spec(
    seeds: Seq<Seq<char>>,
    extra: Seq<Seq<char>>,
    peers: Seq<Seq<char>>,
    self_id: Seq<char>,
    cap: nat,
) -> Seq<Seq<char>> {
    let c = (seeds + extra).filter(valid_neighbor(peers, self_id));
    if c.len() <= cap {
        c
    } else {
        c.take(cap as int)
    }
}

/// A name that may be a neighbor: a known peer other than this node.
pub open spec fn valid_neighbor(peers: Seq<Seq<char>>, self_id: Seq<char>) -> spec_fn(Seq<char>) -> bool {
    |n: Seq<char>| peers.contains(n) && n != self_id
}

/// The position of the entry of `topology` keyed by `self_id`, if any.
fn find_entry(topology: &Vec<(String, Vec<String>)>, self_id: &String) -> (r: Option<usize>)
    ensures
        r matches Some(i) ==> i < topology@.len() && topology@[i as int].0@ == self_id@
            && forall|f: int| 0 <= f < i ==> #[trigger] topology@[f].0@ != self_id@,
        r is None ==> !topology_keys(topology@).contains(self_id@),
{
    let mut i: usize = 0;
    while i < topology.len()
        invariant
            i <= topology@.len(),
            forall|j: int| 0 <= j < i ==> #[trigger] topology@[j].0@ != self_id@,
        decreases topology@.len() - i,
    {
        if topology[i].0 == *self_id {
            return Some(i);
        }
        i = i + 1;
    }
    proof {
        if topology_keys(topology@).contains(self_id@) {
            let j = choose|j: int| 0 <= j < topology_keys(topology@).len() && #[trigger] topology_keys(topology@)[j] == self_id@;
            assert(topology@[j].0@ == self_id@);
        }
    }
    None
}

/// Whether `v` holds a string with the chars of `x`.
fn contains_name(v: &Vec<String>, x: &String) -> (r: bool)
    ensures
        r == names(v@).contains(x@),
{
    let mut i: usize = 0;
    while i < v.len()
        invariant
            i <= v@.len(),
            forall|j: int| 0 <= j < i ==> #[trigger] v@[j]@ != x@,
        decreases v@.len() - i,
    {
        if v[i] == *x {
            proof {
                assert(names(v@)[i as int] == x@);
            }
            return true;
        }
        i = i + 1;
    }
    proof {
        if names(v@).contains(x@) {
            let j = choose|j: int| 0 <= j < names(v@).len() && #[trigger] names(v@)[j] == x@;
            assert(v@[j]@ == x@);
        }
    }
    false
}

/// The keys of `topology` that are neither `self_id` nor among `seeds`, in order.
pub fn remaining_keys(topology: &Vec<(String, Vec<String>)>, self_id: &String, seeds: &Vec<String>) -> (r: Vec<String>)
    ensures
        names(r@) == remaining_spec(topology@, self_id@, names(seeds@)),
{
    let ghost keys = topology_keys(topology@);
    let ghost pred = |k: Seq<char>| k != self_id@ && !names(seeds@).contains(k);
    let mut r: Vec<String> = Vec::new();
    let mut i: usize = 0;
    proof {
        reveal(Seq::filter);
        assert(names(r@) =~= keys.subrange(0, 0).filter(pred));
    }
    while i < topology.len()
        invariant
            i <= topology@.len(),
            keys == topology_keys(topology@),
            pred == (|k: Seq<char>| k != self_id@ && !names(seeds@).contains(k)),
            names(r@) == keys.subrange(0, i as int).filter(pred),
        decreases topology@.len() - i,
    {
        let k = &topology[i].0;
        proof {
            assert(keys.subrange(0, i + 1).drop_last() =~= keys.subrange(0, i as int));
            assert(keys.subrange(0, i + 1).last() == k@);
        }
        if !(*k == *self_id) && !contains_name(seeds, k) {
            let ghost before = r@;
            r.push(k.clone());
            proof {
                lemma_names_push(before, topology@[i as int].0);
            }
        }
        proof {
            let sub = keys.subrange(0, i + 1);
            assert(sub =~= keys.subrange(0, i as int).push(sub.last()));
            keys.subrange(0, i as int).lemma_filter_push(sub.last(), pred);
        }
        i = i + 1;
    }
    proof {
        assert(keys.subrange(0, i as int) =~= keys);
    }
    r
}

/// The neighborhood that the given neighbors and the drawn extra ones make.
pub fn select_neighborhood(
    seeds: &Vec<String>,
    rem: &Vec<String>,
    picks: &Vec<bool>,
    peers: &Vec<String>,
    self_id: &String,
    cap: usize,
) -> (r: Vec<String>)
    requires
        picks@.len() == rem@.len(),
    ensures
        names(r@) == neighborhood_spec(names(seeds@), picked(names(rem@), picks@), names(peers@), self_id@, cap as nat),
{
    let mut cand: Vec<String> = Vec::new();
    let mut i: usize = 0;
    while i < seeds.len()
        invariant
            i <= seeds@.len(),
            names(cand@) == names(seeds@).subrange(0, i as int),
        decreases seeds@.len() - i,
    {
        let ghost before = cand@;
        cand.push(seeds[i].clone());
        proof {
            lemma_names_push(before, seeds@[i as int]);
            assert(names(cand@) =~= names(seeds@).subrange(0, i + 1));
        }
        i = i + 1;
    }
    proof {
        assert(names(seeds@).subrange(0, i as int) =~= names(seeds@));
        assert(picked(names(rem@).subrange(0, 0), picks@.subrange(0, 0)) =~= Seq::<Seq<char>>::empty());
        assert(names(cand@) =~= names(seeds@) + picked(names(rem@).subrange(0, 0), picks@.subrange(0, 0)));
    }
    let mut j: usize = 0;
    while j < rem.len()
        invariant
            j <= rem@.len() == picks@.len(),
            names(cand@) == names(seeds@) + picked(names(rem@).subrange(0, j as int), picks@.subrange(0, j as int)),
        decreases rem@.len() - j,
    {
        proof {
            assert(names(rem@).subrange(0, j + 1).drop_last() =~= names(rem@).subrange(0, j as int));
            assert(picks@.subrange(0, j + 1).drop_last() =~= picks@.subrange(0, j as int));
        }
        if picks[j] {
            let ghost before = cand@;
            cand.push(rem[j].clone());
            proof {
                lemma_names_push(before, rem@[j as int]);
                assert(names(cand@) =~= names(seeds@) + picked(names(rem@).subrange(0, j + 1), picks@.subrange(0, j + 1)));
            }
        } else {
            proof {
                assert(names(cand@) =~= names(seeds@) + picked(names(rem@).subrange(0, j + 1), picks@.subrange(0, j + 1)));
            }
        }
        j = j + 1;
    }
    proof {
        assert(names(rem@).subrange(0, j as int) =~= names(rem@));
        assert(picks@.subrange(0, j as int) =~= picks@);
    }
    let ghost all = names(cand@);
    let ghost pred = valid_neighbor(names(peers@), self_id@);
    let mut r: Vec<String> = Vec::new();
    let mut k: usize = 0;
    proof {
        reveal(Seq::filter);
        assert(names(r@) =~= all.subrange(0, 0).filter(pred));
    }
    while k < cand.len() && r.len() < cap
        invariant
            k <= cand@.len(),
            all == names(cand@),
            pred == valid_neighbor(names(peers@), self_id@),
            names(r@) == all.subrange(0, k as int).filter(pred),
            r@.len() <= cap,
        decreases cand@.len() - k,
    {
        let n = &cand[k];
        proof {
            assert(all.subrange(0, k + 1).drop_last() =~= all.subrange(0, k as int));
            assert(all.subrange(0, k + 1).last() == n@);
        }
        if !(*n == *self_id) && contains_name(peers, n) {
            let ghost before = r@;
            r.push(n.clone());
            proof {
                lemma_names_push(before, cand@[k as int]);
            }
        }
        proof {
            let sub = all.subrange(0, k + 1);
            assert(sub =~= all.subrange(0, k as int).push(sub.last()));
            all.subrange(0, k as int).lemma_filter_push(sub.last(), pred);
        }
        k = k + 1;
    }
    proof {
        let c = all.filter(pred);
        assert(all.subrange(0, k as int) + all.subrange(k as int, all.len() as int) =~= all);
        Seq::filter_distributes_over_add(all.subrange(0, k as int), all.subrange(k as int, all.len() as int), pred);
        if r@.len() < cap {
            assert(all.subrange(0, k as int) =~= all);
        } else {
            assert(c.take(cap as int) =~= names(r@));
        }
    }
    r
}

/// Splits `messages` into the values `known` holds and the others, both in order.
pub fn partition_known(messages: &Vec<u64>, known: &Vec<u64>) -> (r: (Vec<u64>, Vec<u64>))
    ensures
        r.0@ == messages@.filter(|m: u64| known@.contains(m)),
        r.1@ == messages@.filter(|m: u64| !known@.contains(m)),
{
    let ghost inp = |m: u64| known@.contains(m);
    let ghost outp = |m: u64| !known@.contains(m);
    let mut already: Vec<u64> = Vec::new();
    let mut novel: Vec<u64> = Vec::new();
    let mut i: usize = 0;
    proof {
        reveal(Seq::filter);
        assert(already@ =~= messages@.subrange(0, 0).filter(inp));
        assert(novel@ =~= messages@.subrange(0, 0).filter(outp));
    }
    while i < messages.len()
        invariant
            i <= messages@.len(),
            inp == (|m: u64| known@.contains(m)),
            outp == (|m: u64| !known@.contains(m)),
            already@ == messages@.subrange(0, i as int).filter(inp),
            novel@ == messages@.subrange(0, i as int).filter(outp),
        decreases messages@.len() - i,
    {
        let m = messages[i];
        if contains_value(known, m) {
            already.push(m);
        } else {
            novel.push(m);
        }
        proof {
            assert(messages@.subrange(0, i + 1) =~= messages@.subrange(0, i as int).push(m));
            messages@.subrange(0, i as int).lemma_filter_push(m, inp);
            messages@.subrange(0, i as int).lemma_filter_push(m, outp);
        }
        i = i + 1;
    }
    proof {
        assert(messages@.subrange(0, i as int) =~= messages@);
    }
    (already, novel)
}

/// What one gossip message carries: every value not known to be at the
/// neighbor, then each known one whose draw in `picks` came up true.
pub fn gossip_seen(novel: &Vec<u64>, already: &Vec<u64>, picks: &Vec<bool>) -> (r: Vec<u64>)
    requires
        picks@.len() == already@.len(),
    ensures
        r@ == novel@ + picked(already@, picks@),
{
    let mut r: Vec<u64> = Vec::new();
    let mut i: usize = 0;
    while i < novel.len()
        invariant
            i <= novel@.len(),
            r@ == novel@.subrange(0, i as int),
        decreases novel@.len() - i,
    {
        r.push(novel[i]);
        proof {
            assert(r@ =~= novel@.subrange(0, i + 1));
        }
        i = i + 1;
    }
    proof {
        assert(novel@.subrange(0, i as int) =~= novel@);
        assert(r@ =~= novel@ + picked(already@.subrange(0, 0), picks@.subrange(0, 0)));
    }
    let mut j: usize = 0;
    while j < already.len()
        invariant
            j <= already@.len() == picks@.len(),
            r@ == novel@ + picked(already@.subrange(0, j as int), picks@.subrange(0, j as int)),
        decreases already@.len() - j,
    {
        proof {
            assert(already@.subrange(0, j + 1).drop_last() =~= already@.subrange(0, j as int));
            assert(picks@.subrange(0, j + 1).drop_last() =~= picks@.subrange(0, j as int));
        }
        if picks[j] {
            r.push(already[j]);
        }
        proof {
            assert(r@ =~= novel@ + picked(already@.subrange(0, j + 1), picks@.subrange(0, j + 1)));
        }
        j = j + 1;
    }
    proof {
        assert(already@.subrange(0, j as int) =~= already@);
        assert(picks@.subrange(0, j as int) =~= picks@);
    }
    r
}

proof fn lemma_picked_subset<A>(rem: Seq<A>, picks: Seq<bool>)
    ensures
        forall|x: A| picked(rem, picks).contains(x) ==> rem.contains(x),
    decreases rem.len(),
{
    if rem.len() > 0 && picks.len() > 0 {
        lemma_picked_subset(rem.drop_last(), picks.drop_last());
        assert forall|x: A| picked(rem, picks).contains(x) implies rem.contains(x) by {
            let p = picked(rem.drop_last(), picks.drop_last());
            if p.contains(x) {
                assert(rem.drop_last().contains(x));
                let j = choose|j: int| 0 <= j < rem.drop_last().len() && #[trigger] rem.drop_last()[j] == x;
                assert(rem[j] == x);
            } else {
                assert(rem[rem.len() - 1] == x);
            }
        }
    }
}

/// Gossip message `id` from `self_id` to `n` whose values take in every
/// value of `messages` outside `known`, and no value outside `messages`.
pub open spec fn is_gossip_to(msg: Message<Payload>, self_id: Seq<char>, n: Seq<char>, id: int, messages: Seq<u64>, known: Seq<u64>) -> bool {
    &&& msg.src@ == self_id
    &&& msg.dst@ == n
    &&& msg.body.id == Some(id as usize)
    &&& msg.body.in_reply_to is None
    &&& msg.body.payload matches Payload::Gossip { seen } && {
        &&& forall|x: u64| messages.contains(x) && !known.contains(x) ==> #[trigger] seen@.contains(x)
        &&& forall|x: u64| #[trigger] seen@.contains(x) ==> messages.contains(x)
    }
}

/// How many random extra neighbors a topology aims for.
pub const EXTRA_NEIGHBORS: u32 = 8;

/// How many already-known values a gossip message re-sends at least, when
/// there are that many.
pub const RESEND_SAMPLE: u32 = 30;

/// A node of the broadcast workload.
pub struct BroadcastNode {
    pub id: usize,
    pub node_id: String,
    /// Every value this node has seen, each once.
    pub messages: Vec<u64>,
    /// The peers this node gossips with.
    pub neighborhood: Vec<String>,
    /// The ids of the cluster's nodes.
    pub peers: Vec<String>,
    /// For each of `peers`, the values believed to be there already.
    pub known: Vec<Vec<u64>>,
    /// The largest number of new values one gossip message has brought.
    pub gossip_delta: usize,
}

impl BroadcastNode {
    pub open spec fn wf(&self) -> bool {
        &&& self.messages@.no_duplicates()
        &&& self.peers@.len() == self.known@.len()
        &&& forall|i: int| 0 <= i < self.known@.len() ==> {
            &&& (#[trigger] self.known@[i])@.no_duplicates()
            &&& set_of(self.known@[i]@).subset_of(set_of(self.messages@))
        }
        &&& forall|j: int| 0 <= j < self.neighborhood@.len() ==> {
            &&& names(self.peers@).contains((#[trigger] self.neighborhood@[j])@)
            &&& self.neighborhood@[j]@ != self.node_id@
        }
    }

    /// A node that has seen nothing, knows of nothing at its peers, and has
    /// no neighbors yet; its next message id is 1.
    pub fn from_init(init: Init) -> (r: Self)
        ensures
            r.wf(),
            r.id == 1,
            r.node_id@ == init.node_id@,
            r.messages@.len() == 0,
            r.neighborhood@.len() == 0,
            r.peers@ == init.node_ids@,
            r.gossip_delta == 0,
    {
        let mut known: Vec<Vec<u64>> = Vec::new();
        let mut i: usize = 0;
        while i < init.node_ids.len()
            invariant
                i <= init.node_ids@.len(),
                known@.len() == i,
                forall|j: int| 0 <= j < i ==> (#[trigger] known@[j])@.len() == 0,
            decreases init.node_ids@.len() - i,
        {
            known.push(Vec::new());
            i = i + 1;
        }
        let r = BroadcastNode {
            id: 1,
            node_id: init.node_id,
            messages: Vec::new(),
            neighborhood: Vec::new(),
            peers: init.node_ids,
            known,
            gossip_delta: 0,
        };
        proof {
            assert forall|j: int| 0 <= j < r.known@.len() implies
                set_of(r.known@[j]@).subset_of(set_of(r.messages@)) by {
                assert(set_of(r.known@[j]@) =~= Set::<u64>::empty());
            }
        }
        r
    }

    /// `msg` is the gossip for neighbor `j`: it carries the `j`-th message id
    /// from the node's next one, and takes in every value not known to be at
    /// that peer.
    pub open spec fn gossips_to_neighbor(&self, msg: Message<Payload>, j: int) -> bool {
        exists|p: int| 0 <= p < self.peers@.len() && self.peers@[p]@ == self.neighborhood@[j]@
            && is_gossip_to(msg, self.node_id@, self.neighborhood@[j]@, self.id + j, self.messages@, #[trigger] self.known@[p]@)
    }

    /// One gossip message for each neighbor, in order, each with the next
    /// message id: all values that the neighbor is not known to have, and a
    /// random sample of the others.
    pub fn gossip(&mut self) -> (r: Vec<Message<Payload>>)
        requires
            old(self).wf(),
            old(self).id + old(self).neighborhood@.len() <= usize::MAX,
        ensures
            final(self).id == old(self).id + old(self).neighborhood@.len(),
            final(self).node_id == old(self).node_id,
            final(self).messages == old(self).messages,
            final(self).neighborhood == old(self).neighborhood,
            final(self).peers == old(self).peers,
            final(self).known == old(self).known,
            final(self).gossip_delta == old(self).gossip_delta,
            r@.len() == old(self).neighborhood@.len(),
            forall|j: int| 0 <= j < r@.len() ==> old(self).gossips_to_neighbor(#[trigger] r@[j], j),
    {
        let out = self.gossip_messages();
        self.id = self.id + self.neighborhood.len();
        out
    }

    fn gossip_messages(&self) -> (r: Vec<Message<Payload>>)
        requires
            self.wf(),
            self.id + self.neighborhood@.len() <= usize::MAX,
        ensures
            r@.len() == self.neighborhood@.len(),
            forall|j: int| 0 <= j < r@.len() ==> self.gossips_to_neighbor(#[trigger] r@[j], j),
    {
        let mut out: Vec<Message<Payload>> = Vec::new();
        let mut j: usize = 0;
        while j < self.neighborhood.len()
            invariant
                self.wf(),
                self.id + self.neighborhood@.len() <= usize::MAX,
                j <= self.neighborhood@.len(),
                out@.len() == j,
                forall|i: int| 0 <= i < j ==> self.gossips_to_neighbor(#[trigger] out@[i], i),
            decreases self.neighborhood@.len() - j,
        {
            let n = &self.neighborhood[j];
            let p = match find_peer(&self.peers, n) {
                Some(p) => p,
                None => {
                    proof {
                        assert(names(self.peers@).contains(self.neighborhood@[j as int]@));
                    }
                    return out;
                },
            };
            let (already, novel) = partition_known(&self.messages, &self.known[p]);
            let len = already.len();
            let mut picks: Vec<bool> = Vec::new();
            let mut k: usize = 0;
            while k < len
                invariant
                    k <= len,
                    picks@.len() == k,
                decreases len - k,
            {
                let pick = if len > u32::MAX as usize {
                    true
                } else {
                    let d = len as u32;
                    let lo = if RESEND_SAMPLE < d { RESEND_SAMPLE } else { d };
                    let num = if lo > d / 3 { lo } else { d / 3 };
                    gen_ratio(num, d)
                };
                picks.push(pick);
                k = k + 1;
            }
            let seen = gossip_seen(&novel, &already, &picks);
            proof {
                let ms = self.messages@;
                let kn = self.known@[p as int]@;
                lemma_picked_subset(already@, picks@);
                assert forall|x: u64| ms.contains(x) && !kn.contains(x) implies #[trigger] seen@.contains(x) by {
                    let i = choose|i: int| 0 <= i < ms.len() && ms[i] == x;
                    ms.lemma_filter_contains(|m: u64| !kn.contains(m), i);
                    let q = choose|q: int| 0 <= q < novel@.len() && novel@[q] == x;
                    assert(seen@[q] == x);
                }
                assert forall|x: u64| #[trigger] seen@.contains(x) implies ms.contains(x) by {
                    let q = choose|q: int| 0 <= q < seen@.len() && seen@[q] == x;
                    if q < novel@.len() {
                        assert(novel@[q] == x);
                        assert(novel@.contains(x));
                        ms.lemma_filter_contains_rev(|m: u64| !kn.contains(m), x);
                    } else {
                        assert(picked(already@, picks@)[q - novel@.len()] == x);
                        assert(picked(already@, picks@).contains(x));
                        assert(already@.contains(x));
                        ms.lemma_filter_contains_rev(|m: u64| kn.contains(m), x);
                    }
                }
            }
            let ghost old_out = out@;
            out.push(Message {
                src: self.node_id.clone(),
                dst: n.clone(),
                body: Body { id: Some(self.id + j), in_reply_to: None, payload: Payload::Gossip { seen } },
            });
            proof {
                assert(is_gossip_to(out@[j as int], self.node_id@, self.neighborhood@[j as int]@, self.id + j, self.messages@, self.known@[p as int]@));
                assert forall|i: int| 0 <= i < j + 1 implies self.gossips_to_neighbor(#[trigger] out@[i], i) by {
                    if i == j {
                        assert(self.peers@[p as int]@ == self.neighborhood@[i]@);
                    } else {
                        assert(out@[i] == old_out[i]);
                    }
                }
            }
            j = j + 1;
        }
        out
    }
}

impl BroadcastNode {
    /// Serves one event; the flag that comes back asks for the next gossip
    /// round to start early.
    ///
    /// A `broadcast` adds its value and is answered; a `read` is answered with
    /// every value seen. A `topology` sets the neighborhood: the node's given
    /// neighbors and a random few other nodes, only known peers other than
    /// this node, at most half as many as the topology has entries. A `gossip`
    /// from a peer adds its values here and to what that peer is known to
    /// have; when it brought at least as many new values as any gossip before,
    /// the next round is asked to start early. A gossip tick sends the
    /// neighbors their gossip.
    pub fn step(&mut self, input: Event<Payload, InjectedPayload>) -> (r: Result<(Vec<Message<Payload>>, bool), GanError>)
        requires
            old(self).wf(),
        ensures
            final(self).wf(),
            final(self).node_id == old(self).node_id,
            final(self).peers == old(self).peers,
            set_of(old(self).messages@).subset_of(set_of(final(self).messages@)),
            match input {
                Event::Message(m) => match m.body.payload {
                    Payload::Broadcast { message } => if old(self).id < usize::MAX {
                        r matches Ok((out, wake)) && out@.len() == 1 && !wake
                        && answers(out@[0], m, old(self).id)
                        && out@[0].body.payload is BroadcastOk
                        && final(self).id == old(self).id + 1
                        && set_of(final(self).messages@) == set_of(old(self).messages@).insert(message)
                        && final(self).known == old(self).known
                        && final(self).gossip_delta == old(self).gossip_delta
                        && final(self).neighborhood == old(self).neighborhood
                    } else {
                        r is Err && *final(self) == *old(self)
                    },
                    Payload::Read => if old(self).id < usize::MAX {
                        r matches Ok((out, wake)) && out@.len() == 1 && !wake
                        && answers(out@[0], m, old(self).id)
                        && (out@[0].body.payload matches Payload::ReadOk { messages }
                            && messages@ == old(self).messages@)
                        && final(self).id == old(self).id + 1
                        && final(self).messages == old(self).messages
                        && final(self).known == old(self).known
                        && final(self).gossip_delta == old(self).gossip_delta
                        && final(self).neighborhood == old(self).neighborhood
                    } else {
                        r is Err && *final(self) == *old(self)
                    },
                    Payload::Topology { topology } => if old(self).id < usize::MAX
                        && topology_keys(topology@).contains(old(self).node_id@) {
                        r matches Ok((out, wake)) && out@.len() == 1 && !wake
                        && answers(out@[0], m, old(self).id)
                        && out@[0].body.payload is TopologyOk
                        && final(self).id == old(self).id + 1
                        && final(self).messages == old(self).messages
                        && final(self).known == old(self).known
                        && final(self).gossip_delta == old(self).gossip_delta
                        && exists|e: int, picks: Seq<bool>| {
                            &&& 0 <= e < topology@.len()
                            &&& topology@[e].0@ == old(self).node_id@
                            &&& forall|f: int| 0 <= f < e ==> #[trigger] topology@[f].0@ != old(self).node_id@
                            &&& names(final(self).neighborhood@) == neighborhood_spec(
                                names(topology@[e].1@),
                                picked(remaining_spec(topology@, old(self).node_id@, names(topology@[e].1@)), picks),
                                names(old(self).peers@),
                                old(self).node_id@,
                                topology@.len() / 2,
                            )
                        }
                    } else {
                        r is Err && *final(self) == *old(self)
                    },
                    Payload::Gossip { seen } => {
                        let p = m.src@;
                        if names(old(self).peers@).contains(p) {
                            r matches Ok((out, wake)) && out@.len() == 0
                            && final(self).id == old(self).id
                            && set_of(final(self).messages@) == set_of(old(self).messages@).union(set_of(seen@))
                            && final(self).neighborhood == old(self).neighborhood
                            && (exists|i: int| {
                                &&& 0 <= i < old(self).peers@.len()
                                &&& old(self).peers@[i]@ == p
                                &&& set_of((#[trigger] final(self).known@[i])@) == set_of(old(self).known@[i]@).union(set_of(seen@))
                                &&& final(self).known@ == old(self).known@.update(i, final(self).known@[i])
                            })
                            && wake == (final(self).messages@.len() - old(self).messages@.len() >= old(self).gossip_delta)
                            && final(self).gossip_delta == if wake {
                                (final(self).messages@.len() - old(self).messages@.len()) as usize
                            } else {
                                old(self).gossip_delta
                            }
                        } else {
                            r is Err && *final(self) == *old(self)
                        }
                    },
                    _ => r matches Ok((out, wake)) && out@.len() == 0 && !wake && *final(self) == *old(self),
                },
                Event::Injected(InjectedPayload::Gossip) => if old(self).id + old(self).neighborhood@.len() <= usize::MAX {
                    r matches Ok((out, wake)) && !wake
                    && final(self).id == old(self).id + old(self).neighborhood@.len()
                    && final(self).messages == old(self).messages
                    && final(self).neighborhood == old(self).neighborhood
                    && final(self).known == old(self).known
                    && final(self).gossip_delta == old(self).gossip_delta
                    && out@.len() == old(self).neighborhood@.len()
                    && forall|j: int| 0 <= j < out@.len() ==> old(self).gossips_to_neighbor(#[trigger] out@[j], j)
                } else {
                    r is Err && *final(self) == *old(self)
                },
                Event::EOF => r matches Ok((out, wake)) && out@.len() == 0 && !wake && *final(self) == *old(self),
            },
    {
        let input = match input {
            Event::Message(m) => m,
            Event::Injected(InjectedPayload::Gossip) => {
                if self.id > usize::MAX - self.neighborhood.len() {
                    return Err(GanError::Normal("message ids exhausted".to_string()));
                }
                let out = self.gossip();
                return Ok((out, false));
            },
            Event::EOF => {
                return Ok((Vec::new(), false));
            },
        };
        let mut out: Vec<Message<Payload>> = Vec::new();
        match &input.body.payload {
            Payload::Broadcast { message } => {
                if self.id == usize::MAX {
                    return Err(GanError::Normal("message ids exhausted".to_string()));
                }
                let message = *message;
                let mut one: Vec<u64> = Vec::new();
                one.push(message);
                extend_values(&mut self.messages, &one);
                proof {
                    assert forall|x: u64| set_of(one@).contains(x) <==> x == message by {
                        if x == message {
                            assert(one@[0] == x);
                        }
                    }
                    assert(set_of(one@) =~= Set::<u64>::empty().insert(message));
                    assert(set_of(self.messages@) =~= set_of(old(self).messages@).insert(message));
                    assert forall|i: int| 0 <= i < self.known@.len() implies
                        set_of((#[trigger] self.known@[i])@).subset_of(set_of(self.messages@)) by {
                        assert(set_of(old(self).known@[i]@).subset_of(set_of(old(self).messages@)));
                    }
                }
                let mut reply = input.into_reply(Some(&mut self.id));
                reply.body.payload = Payload::BroadcastOk;
                out.push(reply);
                Ok((out, false))
            },
            Payload::Read => {
                if self.id == usize::MAX {
                    return Err(GanError::Normal("message ids exhausted".to_string()));
                }
                let messages = self.messages.clone();
                let mut reply = input.into_reply(Some(&mut self.id));
                reply.body.payload = Payload::ReadOk { messages };
                out.push(reply);
                Ok((out, false))
            },
            Payload::Topology { topology } => {
                if self.id == usize::MAX {
                    return Err(GanError::Normal("message ids exhausted".to_string()));
                }
                let e = match find_entry(topology, &self.node_id) {
                    Some(e) => e,
                    None => {
                        return Err(GanError::Normal("no topology given for this node".to_string()));
                    },
                };
                proof {
                    assert(topology_keys(topology@)[e as int] == self.node_id@);
                }
                let seeds = &topology[e].1;
                let rem = remaining_keys(topology, &self.node_id, seeds);
                let len = rem.len();
                let mut picks: Vec<bool> = Vec::new();
                let mut k: usize = 0;
                while k < len
                    invariant
                        k <= len,
                        picks@.len() == k,
                    decreases len - k,
                {
                    let pick = if len > u32::MAX as usize {
                        true
                    } else {
                        let d = len as u32;
                        let num = if EXTRA_NEIGHBORS < d { EXTRA_NEIGHBORS } else { d };
                        gen_ratio(num, d)
                    };
                    picks.push(pick);
                    k = k + 1;
                }
                let cap = topology.len() / 2;
                let hood = select_neighborhood(seeds, &rem, &picks, &self.peers, &self.node_id, cap);
                proof {
                    let all = names(seeds@) + picked(names(rem@), picks@);
                    let pred = valid_neighbor(names(self.peers@), self.node_id@);
                    let c = all.filter(pred);
                    assert forall|j: int| 0 <= j < hood@.len() implies {
                        &&& names(self.peers@).contains((#[trigger] hood@[j])@)
                        &&& hood@[j]@ != self.node_id@
                    } by {
                        assert(names(hood@)[j] == hood@[j]@);
                        if c.len() <= cap {
                            assert(names(hood@) == c);
                        } else {
                            assert(names(hood@) == c.take(cap as int));
                            assert(c.take(cap as int)[j] == c[j]);
                        }
                        assert(names(hood@)[j] == c[j]);
                        all.lemma_filter_pred(pred, j);
                    }
                }
                self.neighborhood = hood;
                proof {
                    assert(names(self.neighborhood@) == neighborhood_spec(
                        names(topology@[e as int].1@),
                        picked(remaining_spec(topology@, self.node_id@, names(topology@[e as int].1@)), picks@),
                        names(self.peers@),
                        self.node_id@,
                        (topology@.len() / 2) as nat,
                    ));
                    let ee = e as int;
                    let pk = picks@;
                    assert({
                        &&& 0 <= ee < topology@.len()
                        &&& topology@[ee].0@ == old(self).node_id@
                        &&& forall|f: int| 0 <= f < ee ==> #[trigger] topology@[f].0@ != old(self).node_id@
                        &&& names(self.neighborhood@) == neighborhood_spec(
                            names(topology@[ee].1@),
                            picked(remaining_spec(topology@, old(self).node_id@, names(topology@[ee].1@)), pk),
                            names(old(self).peers@),
                            old(self).node_id@,
                            topology@.len() / 2,
                        )
                    });
                }
                let mut reply = input.into_reply(Some(&mut self.id));
                reply.body.payload = Payload::TopologyOk;
                out.push(reply);
                Ok((out, false))
            },
            Payload::Gossip { seen } => {
                let i = match find_peer(&self.peers, &input.src) {
                    Some(i) => i,
                    None => {
                        return Err(GanError::Normal("got gossip from unknown node".to_string()));
                    },
                };
                proof {
                    assert(names(self.peers@)[i as int] == input.src@);
                }
                let before = self.messages.len();
                extend_values(&mut self.known[i], seen);
                extend_values(&mut self.messages, seen);
                proof {
                    assert forall|k: int| 0 <= k < self.known@.len() implies {
                        &&& (#[trigger] self.known@[k])@.no_duplicates()
                        &&& set_of(self.known@[k]@).subset_of(set_of(self.messages@))
                    } by {
                        assert(set_of(old(self).known@[k]@).subset_of(set_of(old(self).messages@)));
                    }
                }
                let delta = self.messages.len() - before;
                let wake = delta >= self.gossip_delta;
                if wake {
                    self.gossip_delta = delta;
                }
                Ok((out, wake))
            },
            _ => Ok((out, false)),
        }
    }
}

/// The position of `n` among `peers`, if it is there.
fn find_peer(peers: &Vec<String>, n: &String) -> (r: Option<usize>)
    ensures
        r matches Some(i) ==> i < peers@.len() && peers@[i as int]@ == n@,
        r is None ==> !names(peers@).contains(n@),
{
    let mut i: usize = 0;
    while i < peers.len()
        invariant
            i <= peers@.len(),
            forall|j: int| 0 <= j < i ==> #[trigger] peers@[j]@ != n@,
        decreases peers@.len() - i,
    {
        if peers[i] == *n {
            return Some(i);
        }
        i = i + 1;
    }
    proof {
        if names(peers@).contains(n@) {
            let j = choose|j: int| 0 <= j < names(peers@).len() && #[trigger] names(peers@)[j] == n@;
            assert(peers@[j]@ == n@);
        }
    }
    None
}

/// One gossip round carries every value across an edge: when a node's gossip
/// for neighbor `j` reaches that neighbor and is merged into the values
/// `before` it had, and the neighbor already had every value the node
/// believed it to have, then the neighbor afterwards has every value of the
/// node.
pub proof fn lemma_gossip_round(sender: BroadcastNode, j: int, msg: Message<Payload>, before: Set<u64>, after: Set<u64>)
    requires
        sender.gossips_to_neighbor(msg, j),
        after == before.union(set_of(msg.body.payload->seen@)),
        forall|p: int| 0 <= p < sender.peers@.len() && sender.peers@[p]@ == sender.neighborhood@[j]@
            ==> set_of((#[trigger] sender.known@[p])@).subset_of(before),
    ensures
        set_of(sender.messages@).subset_of(after),
{
    let p = choose|p: int| 0 <= p < sender.peers@.len() && sender.peers@[p]@ == sender.neighborhood@[j]@
        && is_gossip_to(msg, sender.node_id@, sender.neighborhood@[j]@, sender.id + j, sender.messages@, #[trigger] sender.known@[p]@);
    let kn = sender.known@[p]@;
    assert(set_of(kn).subset_of(before));
    assert forall|x: u64| set_of(sender.messages@).contains(x) implies after.contains(x) by {
        if kn.contains(x) {
            assert(set_of(kn).contains(x));
        } else {
            assert(msg.body.payload->seen@.contains(x));
            assert(set_of(msg.body.payload->seen@).contains(x));
        }
    }
}

} // verus!
