//! The sources of peers and their registry.

pub mod dht;
pub mod lpd;
pub mod pex;
pub mod tracker;
pub mod webseed;

use crate::bytes::same_text;
use crate::discoverers::dht::client::DhtDiscoverer;
use crate::discoverers::lpd::client::LpdDiscoverer;
use crate::discoverers::pex::client::PexDiscoverer;
use crate::discoverers::tracker::client::{states_of, total_counts, TrackerDiscoverer};
use crate::discoverers::webseed::client::WebSeedDiscoverer;
use crate::text::texts;
use crate::traits::{DiscovererStats, DiscovererType, PeerDiscoverer};
use crate::turns::Turns;
use vstd::prelude::*;

verus! {

/// A discoverer of any kind.
pub enum AnyDiscoverer {
    Tracker(TrackerDiscoverer),
    Dht(DhtDiscoverer),
    Pex(PexDiscoverer),
    Lpd(LpdDiscoverer),
    WebSeed(WebSeedDiscoverer),
}

impl PeerDiscoverer for AnyDiscoverer {
    open spec fn label(&self) -> Seq<char> {
        match self {
            AnyDiscoverer::Tracker(d) => d.label(),
            AnyDiscoverer::Dht(d) => d.label(),
            AnyDiscoverer::Pex(d) => d.label(),
            AnyDiscoverer::Lpd(d) => d.label(),
            AnyDiscoverer::WebSeed(d) => d.label(),
        }
    }

    open spec fn kind(&self) -> DiscovererType {
        match self {
            AnyDiscoverer::Tracker(_) => DiscovererType::Tracker,
            AnyDiscoverer::Dht(_) => DiscovererType::Dht,
            AnyDiscoverer::Pex(_) => DiscovererType::Pex,
            AnyDiscoverer::Lpd(_) => DiscovererType::Lpd,
            AnyDiscoverer::WebSeed(_) => DiscovererType::WebSeed,
        }
    }

    open spec fn enabled(&self) -> bool {
        match self {
            AnyDiscoverer::Tracker(d) => d.enabled(),
            AnyDiscoverer::Dht(d) => d.enabled(),
            AnyDiscoverer::Pex(d) => d.enabled(),
            AnyDiscoverer::Lpd(d) => d.enabled(),
            AnyDiscoverer::WebSeed(d) => d.enabled(),
        }
    }

    fn name(&self) -> (r: &str) {
        match self {
            AnyDiscoverer::Tracker(d) => d.name(),
            AnyDiscoverer::Dht(d) => d.name(),
            AnyDiscoverer::Pex(d) => d.name(),
            AnyDiscoverer::Lpd(d) => d.name(),
            AnyDiscoverer::WebSeed(d) => d.name(),
        }
    }

    fn discoverer_type(&self) -> (r: DiscovererType) {
        match self {
            AnyDiscoverer::Tracker(d) => d.discoverer_type(),
            AnyDiscoverer::Dht(d) => d.discoverer_type(),
            AnyDiscoverer::Pex(d) => d.discoverer_type(),
            AnyDiscoverer::Lpd(d) => d.discoverer_type(),
            AnyDiscoverer::WebSeed(d) => d.discoverer_type(),
        }
    }

    fn is_enabled(&self) -> (r: bool) {
        match self {
            AnyDiscoverer::Tracker(d) => d.is_enabled(),
            AnyDiscoverer::Dht(d) => d.is_enabled(),
            AnyDiscoverer::Pex(d) => d.is_enabled(),
            AnyDiscoverer::Lpd(d) => d.is_enabled(),
            AnyDiscoverer::WebSeed(d) => d.is_enabled(),
        }
    }
}

impl AnyDiscoverer {
    /// The numbers of requests, of those that succeeded and of those that failed, and of the peers
    /// that were found.
    pub open spec fn counts(&self) -> (nat, nat, nat, nat) {
        match self {
            AnyDiscoverer::Tracker(d) => total_counts(states_of(d.states)),
            AnyDiscoverer::Dht(d) => counts_in(d.request_stats),
            AnyDiscoverer::Pex(d) => counts_in(d.request_stats),
            AnyDiscoverer::Lpd(d) => counts_in(d.request_stats),
            AnyDiscoverer::WebSeed(d) => counts_in(d.request_stats),
        }
    }

    /// Whether the counts fit in a machine word.
    pub open spec fn countable(&self) -> bool {
        &&& self.counts().0 <= u64::MAX
        &&& self.counts().1 <= u64::MAX
        &&& self.counts().2 <= u64::MAX
        &&& self.counts().3 <= u64::MAX
    }

    /// The request counts.
    pub fn stats(&self) -> (r: DiscovererStats)
        requires
            self.countable(),
        ensures
            counts_in(r) == self.counts(),
    {
        match self {
            AnyDiscoverer::Tracker(d) => d.stats(),
            AnyDiscoverer::Dht(d) => d.stats(),
            AnyDiscoverer::Pex(d) => d.stats(),
            AnyDiscoverer::Lpd(d) => d.stats(),
            AnyDiscoverer::WebSeed(d) => d.stats(),
        }
    }

    /// Whether the discoverer is of use at present.
    pub open spec fn healthy(&self) -> bool {
        match self {
            AnyDiscoverer::Tracker(d) => d.is_healthy(),
            AnyDiscoverer::Dht(d) => d.is_healthy(),
            AnyDiscoverer::Pex(d) => d.connected_peers@.len() > 0,
            AnyDiscoverer::Lpd(d) => d.listener_started,
            AnyDiscoverer::WebSeed(d) => d.config.urls@.len() > 0 || d.config.infohash_urls@.len()
                > 0,
        }
    }

    /// Whether the discoverer is of use at present.
    pub fn health_check(&self) -> (r: bool)
        ensures
            r == self.healthy(),
    {
        match self {
            AnyDiscoverer::Tracker(d) => d.health_check(),
            AnyDiscoverer::Dht(d) => d.health_check(),
            AnyDiscoverer::Pex(d) => d.health_check(),
            AnyDiscoverer::Lpd(d) => d.health_check(),
            AnyDiscoverer::WebSeed(d) => d.health_check(),
        }
    }
}

/// The counts of a discoverer.
pub open spec fn counts_in(s: DiscovererStats) -> (nat, nat, nat, nat) {
    (
        s.total_requests as nat,
        s.success_requests as nat,
        s.failed_requests as nat,
        s.total_peers_discovered as nat,
    )
}

/// The discoverers that are known by another name than `name`.
pub open spec fn not_named<D: PeerDiscoverer>(name: Seq<char>) -> spec_fn(D) -> bool {
    |d: D| d.label() != name
}

/// The positions of the discoverers that are to be used, in ascending order.
pub open spec fn enabled_positions<D: PeerDiscoverer>(s: Seq<D>) -> Seq<int>
    decreases s.len(),
{
    if s.len() == 0 {
        Seq::empty()
    } else {
        let rest = enabled_positions(s.drop_last());
        if s.last().enabled() {
            rest.push(s.len() - 1)
        } else {
            rest
        }
    }
}

/// Whether `r` has the name and the counts of each discoverer, in their order.
pub open spec fn counts_all(s: Seq<AnyDiscoverer>, r: Seq<(String, DiscovererStats)>) -> bool {
    &&& r.len() == s.len()
    &&& forall|i: int|
        0 <= i < r.len() ==> (#[trigger] r[i]).0@ == s[i].label() && counts_in(r[i].1)
            == s[i].counts()
}

impl DiscovererRegistry<AnyDiscoverer> {
    /// The request counts of each discoverer, by its name.
    pub fn aggregate_stats(&self) -> (r: Vec<(String, DiscovererStats)>)
        requires
            forall|i: int|
                0 <= i < self.discoverers@.len() ==> (#[trigger] self.discoverers@[i]).countable(),
        ensures
            counts_all(self.discoverers@, r@),
    {
        let mut out: Vec<(String, DiscovererStats)> = Vec::new();
        let mut i: usize = 0;
        while i < self.discoverers.len()
            invariant
                i <= self.discoverers@.len(),
                forall|j: int|
                    0 <= j < self.discoverers@.len() ==> (
                    #[trigger] self.discoverers@[j]).countable(),
                counts_all(self.discoverers@.take(i as int), out@),
            decreases self.discoverers@.len() - i,
        {
            let d: &AnyDiscoverer = &self.discoverers[i];
            let ghost before = out@;
            out.push((d.name().to_string(), d.stats()));
            i += 1;
            proof {
                let s = self.discoverers@.take(i as int);
                assert forall|j: int| 0 <= j < out@.len() implies (#[trigger] out@[j]).0@
                    == s[j].label() && counts_in(out@[j].1) == s[j].counts() by {
                    if j < before.len() {
                        assert(out@[j] == before[j]);
                    }
                }
            }
        }
        assert(self.discoverers@.take(i as int) =~= self.discoverers@);
        out
    }

    /// The discoverers that are of no use at present, by name.
    pub fn unhealthy(&self) -> (r: Vec<String>)
        ensures
            texts(r@) == unhealthy_names(self.discoverers@),
    {
        let ghost all = self.discoverers@;
        let mut out: Vec<String> = Vec::new();
        let mut i: usize = 0;
        assert(texts(out@) =~= unhealthy_names(all.take(0)));
        while i < self.discoverers.len()
            invariant
                i <= self.discoverers@.len(),
                all == self.discoverers@,
                texts(out@) == unhealthy_names(all.take(i as int)),
            decreases self.discoverers@.len() - i,
        {
            let ghost before = texts(out@);
            if !self.discoverers[i].health_check() {
                out.push(self.discoverers[i].name().to_string());
                assert(texts(out@) =~= before.push(all[i as int].label()));
            }
            i += 1;
            assert(all.take(i as int).drop_last() =~= all.take(i - 1));
        }
        assert(all.take(i as int) =~= all);
        out
    }
}

/// The names of the discoverers that are of no use at present.
pub open spec fn unhealthy_names(s: Seq<AnyDiscoverer>) -> Seq<Seq<char>>
    decreases s.len(),
{
    if s.len() == 0 {
        Seq::empty()
    } else if s.last().healthy() {
        unhealthy_names(s.drop_last())
    } else {
        unhealthy_names(s.drop_last()).push(s.last().label())
    }
}

/// Positions as numbers.
pub open spec fn positions(v: Seq<usize>) -> Seq<int> {
    v.map_values(|i: usize| i as int)
}

/// Which discoverers to call, in their order, and how many of them at once.
pub struct Calls {
    /// Their positions in the registry.
    pub positions: Vec<usize>,
    /// Whose turn it is.
    pub turns: Turns,
}

impl Calls {
    /// Whether these are the calls of all discoverers that are to be used, none of them made yet, with
    /// no more than `max_concurrent` at once.
    pub open spec fn calls_all<D: PeerDiscoverer>(self, all: Seq<D>, max_concurrent: usize) -> bool {
        &&& positions(self.positions@) == enabled_positions(all)
        &&& self.turns == (Turns {
            total: self.positions@.len() as usize,
            started: 0,
            running: 0,
            max_running: max_concurrent,
        })
        &&& self.turns.wf()
    }
}

/// The discoverers that are in use.
pub struct DiscovererRegistry<D: PeerDiscoverer> {
    pub discoverers: Vec<D>,
}

impl<D: PeerDiscoverer> DiscovererRegistry<D> {
    /// A registry without discoverers.
    pub fn new() -> (r: DiscovererRegistry<D>)
        ensures
            r.discoverers@ == Seq::<D>::empty(),
    {
        DiscovererRegistry { discoverers: Vec::new() }
    }

    /// Adds a discoverer.
    pub fn register(&mut self, discoverer: D)
        ensures
            final(self).discoverers@ == old(self).discoverers@.push(discoverer),
    {
        self.discoverers.push(discoverer);
    }

    /// Drops the discoverers with a name.
    pub fn unregister(&mut self, name: &str)
        ensures
            final(self).discoverers@ == old(self).discoverers@.filter(not_named(name@)),
    {
        let ghost all = self.discoverers@;
        let ghost p = not_named::<D>(name@);
        let mut rest: Vec<D> = Vec::new();
        std::mem::swap(&mut rest, &mut self.discoverers);
        let mut reversed: Vec<D> = Vec::new();
        assert(all.skip(all.len() as int).filter(p) =~= Seq::empty()) by {
            reveal(Seq::filter);
        }
        assert(all.take(all.len() as int) =~= all);
        while rest.len() > 0
            invariant
                rest@.len() <= all.len(),
                rest@ == all.take(rest@.len() as int),
                p == not_named::<D>(name@),
                reversed@.reverse() == all.skip(rest@.len() as int).filter(p),
            decreases rest@.len(),
        {
            let ghost n = rest@.len() as int;
            let ghost before = reversed@;
            proof {
                lemma_filter_back(all, n - 1, p);
            }
            match rest.pop() {
                Some(d) => {
                    assert(d == all[n - 1]);
                    assert(rest@ =~= all.take(n - 1));
                    if !same_text(d.name(), name) {
                        reversed.push(d);
                        assert(reversed@.reverse() =~= seq![d] + before.reverse());
                    }
                },
                None => {},
            }
        }
        assert(all.skip(0) =~= all);
        let mut kept: Vec<D> = Vec::new();
        let ghost flipped = reversed@;
        assert(flipped.take(flipped.len() as int) =~= flipped);
        while reversed.len() > 0
            invariant
                reversed@.len() <= flipped.len(),
                reversed@ == flipped.take(reversed@.len() as int),
                kept@ == flipped.reverse().take(flipped.len() - reversed@.len()),
            decreases reversed@.len(),
        {
            let ghost n = reversed@.len() as int;
            match reversed.pop() {
                Some(d) => {
                    kept.push(d);
                    assert(reversed@ =~= flipped.take(n - 1));
                    assert(kept@ =~= flipped.reverse().take(flipped.len() - n + 1));
                },
                None => {},
            }
        }
        assert(kept@ =~= flipped.reverse());
        self.discoverers = kept;
    }

    /// All discoverers, in the order in which they were added.
    pub fn all(&self) -> (r: &Vec<D>)
        ensures
            r@ == self.discoverers@,
    {
        &self.discoverers
    }

    /// The positions of the discoverers that are to be used.
    pub fn enabled(&self) -> (r: Vec<usize>)
        ensures
            positions(r@) == enabled_positions(self.discoverers@),
    {
        let ghost all = self.discoverers@;
        let mut out: Vec<usize> = Vec::new();
        let mut i: usize = 0;
        assert(positions(out@) =~= enabled_positions(all.take(0)));
        while i < self.discoverers.len()
            invariant
                i <= self.discoverers@.len(),
                all == self.discoverers@,
                positions(out@) == enabled_positions(all.take(i as int)),
            decreases self.discoverers@.len() - i,
        {
            let ghost before = positions(out@);
            if self.discoverers[i].is_enabled() {
                out.push(i);
                assert(positions(out@) =~= before.push(i as int));
            }
            i += 1;
            assert(all.take(i as int).drop_last() =~= all.take(i - 1));
        }
        assert(all.take(i as int) =~= all);
        out
    }

    /// The discoverers to call for a discovery: all that are to be used, `max_concurrent` of them at
    /// once.
    pub fn to_call(&self, max_concurrent: usize) -> (r: Calls)
        ensures
            r.calls_all(self.discoverers@, max_concurrent),
    {
        let all: Vec<usize> = self.enabled();
        let turns: Turns = Turns::new(all.len(), max_concurrent);
        Calls { positions: all, turns }
    }

    /// The first discoverer with a name.
    pub fn get(&self, name: &str) -> (r: Option<&D>)
        ensures
            match r {
                Some(d) => exists|i: int|
                    0 <= i < self.discoverers@.len() && #[trigger] self.discoverers@[i] == *d
                        && d.label() == name@ && forall|j: int|
                        0 <= j < i ==> (#[trigger] self.discoverers@[j]).label() != name@,
                None => forall|i: int|
                    0 <= i < self.discoverers@.len() ==> (#[trigger] self.discoverers@[i]).label()
                        != name@,
            },
    {
        let mut i: usize = 0;
        while i < self.discoverers.len()
            invariant
                i <= self.discoverers@.len(),
                forall|j: int| 0 <= j < i ==> (#[trigger] self.discoverers@[j]).label() != name@,
            decreases self.discoverers@.len() - i,
        {
            if same_text(self.discoverers[i].name(), name) {
                let d: &D = &self.discoverers[i];
                assert(self.discoverers@[i as int] == *d);
                return Some(d);
            }
            i += 1;
        }
        None
    }

    /// The number of discoverers.
    pub fn len(&self) -> (r: usize)
        ensures
            r == self.discoverers@.len(),
    {
        self.discoverers.len()
    }

    /// Whether there is no discoverer.
    pub fn is_empty(&self) -> (r: bool)
        ensures
            r == (self.discoverers@.len() == 0),
    {
        self.discoverers.len() == 0
    }
}

impl<D: PeerDiscoverer> Default for DiscovererRegistry<D> {
    fn default() -> (r: DiscovererRegistry<D>)
        ensures
            r.discoverers@ == Seq::<D>::empty(),
    {
        DiscovererRegistry::new()
    }
}

/// Filtering a suffix that grows at its front.
proof fn lemma_filter_back<T>(s: Seq<T>, i: int, p: spec_fn(T) -> bool)
    requires
        0 <= i < s.len(),
    ensures
        s.skip(i).filter(p) == (if p(s[i]) {
            seq![s[i]] + s.skip(i + 1).filter(p)
        } else {
            s.skip(i + 1).filter(p)
        }),
{
    assert(s.skip(i) =~= seq![s[i]] + s.skip(i + 1));
    Seq::filter_distributes_over_add(seq![s[i]], s.skip(i + 1), p);
    reveal_with_fuel(Seq::filter, 2);
    assert(seq![s[i]].drop_last() =~= Seq::empty());
    assert(seq![s[i]].filter(p) =~= if p(s[i]) {
        seq![s[i]]
    } else {
        Seq::empty()
    });
}

/// The positions of the discoverers to use are positions of such, and of all of them.
pub proof fn law_enabled_discoverers<D: PeerDiscoverer>(s: Seq<D>, i: int)
    ensures
        enabled_positions(s).contains(i) <==> 0 <= i < s.len() && s[i].enabled(),
    decreases s.len(),
{
    if s.len() > 0 {
        let rest = s.drop_last();
        let r = enabled_positions(s);
        let q = enabled_positions(rest);
        law_enabled_discoverers(rest, i);
        if q.contains(i) {
            let k = choose|k: int| 0 <= k < q.len() && q[k] == i;
            assert(r[k] == i);
        }
        if r.contains(i) && i != s.len() - 1 {
            let k = choose|k: int| 0 <= k < r.len() && r[k] == i;
            assert(q[k] == i);
        }
        if i == s.len() - 1 && s[i].enabled() {
            assert(r[r.len() - 1] == i);
        }
        if i == s.len() - 1 && !s[i].enabled() {
            assert(!q.contains(i));
        }
    }
}

/// A name that was dropped is no longer found, and every other discoverer stays.
pub proof fn law_dropped_name_is_gone<D: PeerDiscoverer>(s: Seq<D>, name: Seq<char>, d: D)
    ensures
        s.filter(not_named(name)).contains(d) <==> s.contains(d) && d.label() != name,
{
    let r = s.filter(not_named(name));
    if r.contains(d) {
        let i = choose|i: int| 0 <= i < r.len() && r[i] == d;
        s.lemma_filter_pred(not_named(name), i);
        s.lemma_filter_contains_rev(not_named(name), d);
    }
    if s.contains(d) && d.label() != name {
        let i = choose|i: int| 0 <= i < s.len() && s[i] == d;
        s.lemma_filter_contains(not_named(name), i);
    }
}

/// The discoverers are called in their order, none of them twice.
pub proof fn law_calls_are_in_order<D: PeerDiscoverer>(s: Seq<D>)
    ensures
        forall|i: int, j: int|
            #![trigger enabled_positions(s)[i], enabled_positions(s)[j]]
            0 <= i < j < enabled_positions(s).len() ==> enabled_positions(s)[i] < enabled_positions(
                s,
            )[j],
        forall|i: int|
            0 <= i < enabled_positions(s).len() ==> 0 <= #[trigger] enabled_positions(s)[i] < s.len(),
    decreases s.len(),
{
    if s.len() > 0 {
        let q = enabled_positions(s.drop_last());
        let r = enabled_positions(s);
        law_calls_are_in_order(s.drop_last());
        assert forall|i: int| 0 <= i < r.len() implies 0 <= #[trigger] r[i] < s.len() by {
            if i < q.len() {
                assert(r[i] == q[i]);
            }
        }
        assert forall|i: int, j: int|
            #![trigger r[i], r[j]]
            0 <= i < j < r.len() implies r[i] < r[j] by {
            assert(r[i] == q[i]);
            if j < q.len() {
                assert(r[j] == q[j]);
            }
        }
    }
}

/// Just the names of the discoverers that are of no use at present are told.
pub proof fn law_unhealthy_names(s: Seq<AnyDiscoverer>, name: Seq<char>)
    ensures
        unhealthy_names(s).contains(name) <==> exists|i: int|
            0 <= i < s.len() && (#[trigger] s[i]).label() == name && !s[i].healthy(),
    decreases s.len(),
{
    let r = unhealthy_names(s);
    if s.len() > 0 {
        let rest = s.drop_last();
        let last = s.len() - 1;
        let q = unhealthy_names(rest);
        law_unhealthy_names(rest, name);
        if r.contains(name) {
            let k = choose|k: int| 0 <= k < r.len() && r[k] == name;
            if k < q.len() {
                assert(q[k] == name);
                let i = choose|i: int|
                    0 <= i < rest.len() && (#[trigger] rest[i]).label() == name && !rest[i].healthy();
                assert(s[i].label() == name);
            } else {
                assert(s[last].label() == name);
            }
        }
        if exists|i: int| 0 <= i < s.len() && (#[trigger] s[i]).label() == name && !s[i].healthy() {
            let i = choose|i: int|
                0 <= i < s.len() && (#[trigger] s[i]).label() == name && !s[i].healthy();
            if i < last {
                assert(rest[i] == s[i]);
                let k = choose|k: int| 0 <= k < q.len() && q[k] == name;
                assert(r[k] == name);
            } else {
                assert(r[r.len() - 1] == name);
            }
        }
    }
}

/// A discoverer is of use while there is something to ask: a tracker that is not left alone, a node of the
/// DHT that failed fewer than three times in a row, a connected peer, a listener, or a source.
pub proof fn law_what_makes_a_discoverer_healthy(
    tracker: TrackerDiscoverer,
    dht: DhtDiscoverer,
    i: int,
)
    ensures
        0 <= i < tracker.states.seq().len() && !tracker.states.seq()[i].1.disabled
            ==> AnyDiscoverer::Tracker(tracker).healthy(),
        (forall|j: int|
            0 <= j < tracker.states.seq().len() ==> (#[trigger] tracker.states.seq()[j]).1.disabled)
            ==> !AnyDiscoverer::Tracker(tracker).healthy(),
        0 <= i < dht.routing_table.seq().len() && dht.routing_table.seq()[i].1.consecutive_failures < 3
            ==> AnyDiscoverer::Dht(dht).healthy(),
        (forall|j: int|
            0 <= j < dht.routing_table.seq().len() ==> (
            #[trigger] dht.routing_table.seq()[j]).1.consecutive_failures >= 3)
            ==> !AnyDiscoverer::Dht(dht).healthy(),
{
    let states = states_of(tracker.states);
    if 0 <= i < tracker.states.seq().len() && !tracker.states.seq()[i].1.disabled {
        assert(!states[i].disabled);
    }
    if forall|j: int|
        0 <= j < tracker.states.seq().len() ==> (#[trigger] tracker.states.seq()[j]).1.disabled {
        assert forall|j: int| 0 <= j < states.len() implies (#[trigger] states[j]).disabled by {
            assert(tracker.states.seq()[j].1.disabled);
        }
    }
    let all = crate::discoverers::dht::client::known(dht.routing_table);
    let well = crate::discoverers::dht::client::node_well();
    if 0 <= i < dht.routing_table.seq().len() && dht.routing_table.seq()[i].1.consecutive_failures < 3 {
        all.lemma_filter_contains(well, i);
    }
    if forall|j: int|
        0 <= j < dht.routing_table.seq().len() ==> (
        #[trigger] dht.routing_table.seq()[j]).1.consecutive_failures >= 3 {
        assert forall|j: int| 0 <= j < all.len() implies !well(#[trigger] all[j]) by {
            assert(dht.routing_table.seq()[j].1.consecutive_failures >= 3);
        }
        crate::seqs::lemma_filter_nothing(all, well);
    }
}

/// The report on the discoverers has one entry for each, in their order, with its name and its four
/// counts.
pub proof fn law_every_discoverer_is_reported(
    s: Seq<AnyDiscoverer>,
    r: Seq<(String, DiscovererStats)>,
    i: int,
)
    requires
        counts_all(s, r),
        0 <= i < s.len(),
    ensures
        r.len() == s.len(),
        r[i].0@ == s[i].label(),
        r[i].1.total_requests == s[i].counts().0,
        r[i].1.success_requests == s[i].counts().1,
        r[i].1.failed_requests == s[i].counts().2,
        r[i].1.total_peers_discovered == s[i].counts().3,
{
    assert(r[i].0@ == s[i].label());
}

/// A plan of calls has one for every discoverer that is enabled, none for the others, none twice, and
/// none made yet.
pub proof fn law_calls_are_planned_for_the_enabled<D: PeerDiscoverer>(
    calls: Calls,
    all: Seq<D>,
    max_concurrent: usize,
    i: int,
)
    requires
        calls.calls_all(all, max_concurrent),
        0 <= i < all.len(),
    ensures
        all[i].enabled() <==> exists|k: int|
            0 <= k < calls.positions@.len() && #[trigger] calls.positions@[k] == i,
        calls.positions@.len() <= usize::MAX ==> calls.turns.total == calls.positions@.len(),
        calls.turns.started == 0 && calls.turns.running == 0,
        calls.turns.max_running == max_concurrent,
        forall|j: int, k: int|
            #![trigger calls.positions@[j], calls.positions@[k]]
            0 <= j < k < calls.positions@.len() ==> calls.positions@[j] < calls.positions@[k],
{
    let p = positions(calls.positions@);
    lemma_enabled_positions(all, i);
    law_calls_are_in_order(all);
    assert(p.len() == calls.positions@.len());
    if all[i].enabled() {
        let k = choose|k: int| 0 <= k < p.len() && p[k] == i;
        assert(calls.positions@[k] == i);
    }
    if exists|k: int| 0 <= k < calls.positions@.len() && #[trigger] calls.positions@[k] == i {
        let k = choose|k: int| 0 <= k < calls.positions@.len() && #[trigger] calls.positions@[k] == i;
        assert(p[k] == i);
    }
    assert forall|j: int, k: int|
        #![trigger calls.positions@[j], calls.positions@[k]]
        0 <= j < k < calls.positions@.len() implies calls.positions@[j] < calls.positions@[k] by {
        assert(p[j] < p[k]);
    }
}

proof fn lemma_enabled_positions<D: PeerDiscoverer>(s: Seq<D>, i: int)
    requires
        0 <= i < s.len(),
    ensures
        s[i].enabled() <==> enabled_positions(s).contains(i),
    decreases s.len(),
{
    let rest = s.drop_last();
    let q = enabled_positions(rest);
    let r = enabled_positions(s);
    law_calls_are_in_order(rest);
    if i < rest.len() {
        lemma_enabled_positions(rest, i);
        assert(rest[i] == s[i]);
        if q.contains(i) {
            let k = choose|k: int| 0 <= k < q.len() && q[k] == i;
            assert(r[k] == i);
        }
        if r.contains(i) {
            let k = choose|k: int| 0 <= k < r.len() && r[k] == i;
            assert(k < q.len());
            assert(q[k] == i);
        }
    } else {
        if s[i].enabled() {
            assert(r[r.len() - 1] == i);
        } else if r.contains(i) {
            let k = choose|k: int| 0 <= k < r.len() && r[k] == i;
            assert(q[k] < rest.len());
        }
    }
}

/// Each discoverer goes by its own name and kind, and is called if its settings enable it: trackers if
/// there are any, web seeds if there is a source for every infohash.
pub proof fn law_names_of_discoverers(d: AnyDiscoverer)
    ensures
        d matches AnyDiscoverer::Tracker(t) ==> d.label() == "tracker"@ && d.kind()
            == DiscovererType::Tracker && (d.enabled() <==> t.config.trackers@.len() > 0),
        d matches AnyDiscoverer::Dht(t) ==> d.label() == "dht"@ && d.kind() == DiscovererType::Dht && (
        d.enabled() <==> t.config.enabled),
        d matches AnyDiscoverer::Pex(t) ==> d.label() == "pex"@ && d.kind() == DiscovererType::Pex && (
        d.enabled() <==> t.config.enabled),
        d matches AnyDiscoverer::Lpd(t) ==> d.label() == "lpd"@ && d.kind() == DiscovererType::Lpd && (
        d.enabled() <==> t.config.enabled),
        d matches AnyDiscoverer::WebSeed(t) ==> d.label() == "webseed"@ && d.kind()
            == DiscovererType::WebSeed && (d.enabled() <==> t.config.enabled && t.config.urls@.len()
            > 0),
{
}

/// The counts of a discoverer are those of its requests.
pub proof fn law_counts_of_discoverers(d: AnyDiscoverer)
    ensures
        d matches AnyDiscoverer::Dht(t) ==> d.counts() == (
            t.request_stats.total_requests as nat,
            t.request_stats.success_requests as nat,
            t.request_stats.failed_requests as nat,
            t.request_stats.total_peers_discovered as nat,
        ),
        d matches AnyDiscoverer::Pex(t) ==> d.counts() == (
            t.request_stats.total_requests as nat,
            t.request_stats.success_requests as nat,
            t.request_stats.failed_requests as nat,
            t.request_stats.total_peers_discovered as nat,
        ),
        d matches AnyDiscoverer::Lpd(t) ==> d.counts() == (
            t.request_stats.total_requests as nat,
            t.request_stats.success_requests as nat,
            t.request_stats.failed_requests as nat,
            t.request_stats.total_peers_discovered as nat,
        ),
        d matches AnyDiscoverer::WebSeed(t) ==> d.counts() == (
            t.request_stats.total_requests as nat,
            t.request_stats.success_requests as nat,
            t.request_stats.failed_requests as nat,
            t.request_stats.total_peers_discovered as nat,
        ),
{
}

} // verus!
