use std::sync::Arc;
use vstd::prelude::*;
use vstd::string::*;
use vstd::utf8::encode_utf8;

use crate::interval::{seq_has, Interval, Range};
use crate::util::{clock_now, elapsed, share, within, Atom, Timestamp};

verus! {

/// The BLAKE3 digest of a byte string.
pub uninterp spec fn blake3_digest(data: Seq<u8>) -> Seq<u8>;

/// `blake3::hash`: the 32-byte BLAKE3 digest of the input, which depends on
/// the input bytes alone.
#[verifier::external_body]
fn blake3_hash(data: &[u8]) -> (digest: [u8; 32])
    ensures
        digest@ == blake3_digest(data@),
{
    blake3::hash(data).into()
}

/// `rand::random::<usize>()`: a random number; nothing is promised of it.
#[verifier::external_body]
fn random_index() -> usize {
    rand::random()
}

/// The identity of a worker: the BLAKE3 digest of the name it announces.
#[derive(Copy, Clone, Debug, PartialEq, Eq, PartialOrd, Ord)]
pub struct WorkerId([u8; 32]);

impl View for WorkerId {
    type V = Seq<u8>;

    closed spec fn view(&self) -> Seq<u8> {
        self.0@
    }
}

impl<'a> From<&'a str> for WorkerId {
    /// The identity of the worker announcing the given name: the digest of
    /// the name's UTF-8 bytes.
    fn from(name: &'a str) -> (id: Self)
        ensures
            id@ == blake3_digest(encode_utf8(name@)),
    {
        let id = WorkerId(blake3_hash(name.as_bytes()));
        proof {
            let chosen = choose|a: [u8; 32]| a@ == blake3_digest(encode_utf8(name@));
            assert(chosen@ == id.0@);
            broadcast use vstd::array::axiom_array_ext_equal;
            assert(chosen =~= id.0);
        }
        id
    }
}

impl<'a> vstd::std_specs::convert::FromSpecImpl<&'a str> for WorkerId {
    open spec fn obeys_from_spec() -> bool {
        true
    }

    closed spec fn from_spec(name: &'a str) -> WorkerId {
        WorkerId(choose|a: [u8; 32]| a@ == blake3_digest(encode_utf8(name@)))
    }
}

impl WorkerId {
    /// Whether both identities hold the same digest.
    pub fn same_as(&self, other: &WorkerId) -> (same: bool)
        ensures
            same == (self@ == other@),
    {
        let mut i: usize = 0;
        while i < 32
            invariant
                i <= 32,
                self.0@.len() == 32,
                other.0@.len() == 32,
                forall|k: int| 0 <= k < i ==> self.0@[k] == other.0@[k],
            decreases 32 - i,
        {
            if self.0[i] != other.0[i] {
                assert(self.0@[i as int] != other.0@[i as int]);
                return false;
            }
            i = i + 1;
        }
        assert(self.0@ =~= other.0@);
        true
    }
}

/// What is known of a registered worker: its identity, the range it was
/// asked to hold, the address it gave, the range it reported holding, and
/// the time of its last ping, in nanoseconds since the Unix epoch (negative
/// before it).
#[verifier::ext_equal]
pub struct WorkerModel {
    pub id: Seq<u8>,
    pub desired_range: Seq<(u32, u32)>,
    pub url: Seq<char>,
    pub available_range: Seq<(u32, u32)>,
    pub last_ping: int,
}

struct WorkerState {
    url: String,
    available_range: Range,
    last_ping: Timestamp,
}

struct Worker {
    worker_id: WorkerId,
    desired_range: Arc<Range>,
    state: Atom<WorkerState>,
}

impl Worker {
    pub closed spec fn model(&self) -> WorkerModel {
        WorkerModel {
            id: self.worker_id@,
            desired_range: (*self.desired_range)@,
            url: self.state.value().url@,
            available_range: self.state.value().available_range@,
            last_ping: self.state.value().last_ping.value(),
        }
    }
}

impl Clone for Worker {
    fn clone(&self) -> (w: Self)
        ensures
            w.model() == self.model(),
    {
        Worker {
            worker_id: self.worker_id,
            desired_range: share(&self.desired_range),
            state: self.state.clone(),
        }
    }
}

spec fn worker_models(ws: Seq<Worker>) -> Seq<WorkerModel> {
    ws.map_values(|w: Worker| w.model())
}

/// The worker's dataset range and how far it got, as sent with a ping.
pub struct PingMessageWorkerState {
    pub dataset: String,
    pub range: Range,
}

/// A worker announcing itself: its name, its address and, if it has one,
/// its state.
pub struct PingMessage {
    pub worker_id: String,
    pub worker_url: String,
    pub worker_state: Option<PingMessageWorkerState>,
}

/// The answer to a ping: the dataset served and the range the worker is
/// asked to hold.
pub struct PingResponse {
    pub dataset: String,
    pub range: Arc<Range>,
}

/// No two workers share an identity.
pub open spec fn ids_distinct(ws: Seq<WorkerModel>) -> bool {
    forall|i: int, j: int| 0 <= i < j < ws.len() ==> #[trigger] ws[i].id != #[trigger] ws[j].id
}

/// The identity a ping speaks for.
pub open spec fn ping_id(msg: PingMessage) -> Seq<u8> {
    blake3_digest(encode_utf8(msg.worker_id@))
}

/// The range a ping reports: the worker's range when it reports one for the
/// dataset served, else the empty range.
pub open spec fn offered_range(msg: PingMessage, dataset: Seq<char>) -> Seq<(u32, u32)> {
    match msg.worker_state {
        Some(s) => if s.dataset@ == dataset {
            s.range@
        } else {
            Seq::empty()
        },
        None => Seq::empty(),
    }
}

/// Some registered worker has this identity.
pub open spec fn is_registered(ws: Seq<WorkerModel>, id: Seq<u8>) -> bool {
    exists|i: int| 0 <= i < ws.len() && #[trigger] ws[i].id == id
}

/// The position of the worker with this identity.
pub open spec fn position_of(ws: Seq<WorkerModel>, id: Seq<u8>) -> int {
    choose|i: int| 0 <= i < ws.len() && #[trigger] ws[i].id == id
}

/// The workers after a ping received at time `now`. A known worker gets the
/// new address, reported range and ping time and keeps the range it was
/// asked to hold; an unknown worker is appended and asked to hold the range
/// it reports.
pub open spec fn workers_after_ping(
    ws: Seq<WorkerModel>,
    msg: PingMessage,
    dataset: Seq<char>,
    now: int,
) -> Seq<WorkerModel> {
    let id = ping_id(msg);
    let offered = offered_range(msg, dataset);
    if is_registered(ws, id) {
        let i = position_of(ws, id);
        ws.update(
            i,
            WorkerModel {
                id: ws[i].id,
                desired_range: ws[i].desired_range,
                url: msg.worker_url@,
                available_range: offered,
                last_ping: now,
            },
        )
    } else {
        ws.push(
            WorkerModel {
                id,
                desired_range: offered,
                url: msg.worker_url@,
                available_range: offered,
                last_ping: now,
            },
        )
    }
}

/// The range a ping is answered with: the range the worker is asked to hold.
pub open spec fn range_for_ping(ws: Seq<WorkerModel>, msg: PingMessage, dataset: Seq<char>) -> Seq<
    (u32, u32),
> {
    let id = ping_id(msg);
    if is_registered(ws, id) {
        ws[position_of(ws, id)].desired_range
    } else {
        offered_range(msg, dataset)
    }
}

/// How recent a ping must be for the worker to be offered to clients.
pub open spec fn serving_window() -> int {
    30_000_000_000
}

/// How recent a ping must be for the worker to count in scheduling.
pub open spec fn alive_window() -> int {
    600_000_000_000
}

/// The worker pinged within the last 30 seconds and both reports and is
/// asked to hold the block.
pub open spec fn serves(w: WorkerModel, block: u32, now: int) -> bool {
    &&& elapsed(now, w.last_ping) < serving_window()
    &&& seq_has(w.available_range, block as int)
    &&& seq_has(w.desired_range, block as int)
}

/// The addresses of the workers that serve the block, in registration order.
pub open spec fn candidate_urls(ws: Seq<WorkerModel>, block: u32, now: int) -> Seq<Seq<char>>
    decreases ws.len(),
{
    if ws.len() == 0 {
        Seq::empty()
    } else {
        let rest = candidate_urls(ws.drop_last(), block, now);
        if serves(ws.last(), block, now) {
            rest.push(ws.last().url)
        } else {
            rest
        }
    }
}

/// The address picked for the block with the random number `pick`: the
/// candidate at position `pick` modulo their number, or none without
/// candidates.
pub open spec fn picked_url(ws: Seq<WorkerModel>, block: u32, now: int, pick: usize) -> Option<
    Seq<char>,
> {
    let c = candidate_urls(ws, block, now);
    if c.len() == 0 {
        None
    } else {
        Some(c[pick as int % c.len() as int])
    }
}

/// The ranges that the workers that pinged within the last ten minutes are
/// asked to hold, in registration order.
pub open spec fn live_desired_ranges(ws: Seq<WorkerModel>, now: int) -> Seq<Seq<(u32, u32)>>
    decreases ws.len(),
{
    if ws.len() == 0 {
        Seq::empty()
    } else {
        let rest = live_desired_ranges(ws.drop_last(), now);
        if elapsed(now, ws.last().last_ping) < alive_window() {
            rest.push(ws.last().desired_range)
        } else {
            rest
        }
    }
}

/// The positions, in increasing order, of the ranges that hold the block.
pub open spec fn holders(ranges: Seq<Seq<(u32, u32)>>, block: u32) -> Seq<usize>
    decreases ranges.len(),
{
    if ranges.len() == 0 {
        Seq::empty()
    } else {
        let rest = holders(ranges.drop_last(), block);
        if seq_has(ranges.last(), block as int) {
            rest.push((ranges.len() - 1) as usize)
        } else {
            rest
        }
    }
}

fn append_copies(dst: &mut Vec<Worker>, src: &Vec<Worker>, from: usize, to: usize)
    requires
        from <= to <= src@.len(),
    ensures
        worker_models(final(dst)@) == worker_models(old(dst)@) + worker_models(src@).subrange(
            from as int,
            to as int,
        ),
{
    let ghost start = dst@;
    let mut j: usize = from;
    while j < to
        invariant
            from <= j <= to <= src@.len(),
            dst@.len() == start.len() + (j - from),
            forall|k: int| 0 <= k < start.len() ==> (#[trigger] dst@[k]).model() == start[k].model(),
            forall|k: int|
                from <= k < j ==> (#[trigger] dst@[start.len() + (k - from)]).model() == src@[k].model(),
        decreases to - j,
    {
        let copy = src[j].clone();
        dst.push(copy);
        j = j + 1;
    }
    assert(worker_models(dst@) =~= worker_models(start) + worker_models(src@).subrange(
        from as int,
        to as int,
    )) by {
        assert forall|k: int| start.len() <= k < dst@.len() implies worker_models(dst@)[k] == (
        worker_models(start) + worker_models(src@).subrange(from as int, to as int))[k] by {
            let m = k - start.len() + from;
            assert(dst@[start.len() + (m - from)].model() == src@[m].model());
        }
    }
}

/// The registry of the workers serving one dataset.
pub struct StateManager {
    dataset: String,
    workers: Atom<Vec<Worker>>,
    intervals: Vec<Interval>,
    replication: usize,
}

impl StateManager {
    #[verifier::type_invariant]
    spec fn well_formed(self) -> bool {
        ids_distinct(worker_models(self.workers.value()@))
    }

    /// The dataset served.
    pub closed spec fn dataset_view(&self) -> Seq<char> {
        self.dataset@
    }

    /// The registered workers, in registration order.
    pub closed spec fn workers_view(&self) -> Seq<WorkerModel> {
        worker_models(self.workers.value()@)
    }

    /// The intervals of blocks to be placed on workers.
    pub closed spec fn intervals_view(&self) -> Seq<(u32, u32)> {
        self.intervals@.map_values(|iv: Interval| iv@)
    }

    /// How many workers should hold each block.
    pub closed spec fn replication_view(&self) -> usize {
        self.replication
    }

    /// A registry for the dataset with no worker yet.
    pub fn new(dataset: String, intervals: Vec<Interval>, replication: usize) -> (m: Self)
        ensures
            m.dataset_view() == dataset@,
            m.workers_view() == Seq::<WorkerModel>::empty(),
            m.intervals_view() == intervals@.map_values(|iv: Interval| iv@),
            m.replication_view() == replication,
    {
        let m = StateManager {
            dataset,
            workers: Atom::new(Arc::new(Vec::new())),
            intervals,
            replication,
        };
        assert(m.workers_view() =~= Seq::<WorkerModel>::empty());
        m
    }
}


impl StateManager {
    /// Records a ping received at time `now` and answers it. A known worker
    /// gets its new address, reported range and ping time, and is answered
    /// with the range it was first asked to hold; an unknown worker is
    /// registered and asked to hold the range it reports. The reported range
    /// counts only when it is for the dataset served.
    pub fn ping_at(&mut self, msg: PingMessage, now: Timestamp) -> (resp: PingResponse)
        ensures
            final(self).workers_view() == workers_after_ping(
                old(self).workers_view(),
                msg,
                old(self).dataset_view(),
                now.value(),
            ),
            resp.dataset@ == old(self).dataset_view(),
            resp.range@ == range_for_ping(old(self).workers_view(), msg, old(self).dataset_view()),
            final(self).dataset_view() == old(self).dataset_view(),
            final(self).intervals_view() == old(self).intervals_view(),
            final(self).replication_view() == old(self).replication_view(),
            ids_distinct(final(self).workers_view()),
    {
        proof {
            use_type_invariant(&*self);
        }
        let ghost ws0 = self.workers_view();
        let ghost dataset = self.dataset@;
        let ghost id = ping_id(msg);
        let ghost offered = offered_range(msg, dataset);
        let worker_id = WorkerId::from(msg.worker_id.as_str());
        let available_range = match msg.worker_state {
            Some(s) => if s.dataset == self.dataset {
                s.range
            } else {
                Range::empty()
            },
            None => Range::empty(),
        };
        assert(available_range@ == offered);
        let url = msg.worker_url;
        let current = self.workers.get();
        let n = current.len();
        assert(worker_models(current@) == ws0);
        let mut i: usize = 0;
        while i < n && !current[i].worker_id.same_as(&worker_id)
            invariant
                n == current@.len(),
                i <= n,
                forall|k: int| 0 <= k < i ==> (#[trigger] current@[k]).worker_id@ != worker_id@,
            decreases n - i,
        {
            i = i + 1;
        }
        let mut updated: Vec<Worker> = Vec::new();
        if i < n {
            let ghost old_model = ws0[i as int];
            assert(ws0[i as int].id == id);
            assert(is_registered(ws0, id));
            assert(position_of(ws0, id) == i) by {
                let p = position_of(ws0, id);
                if p != i {
                    if p < i {
                        assert(ws0[p].id != ws0[i as int].id);
                    } else {
                        assert(ws0[i as int].id != ws0[p].id);
                    }
                }
            }
            let desired = share(&current[i].desired_range);
            let answer = share(&current[i].desired_range);
            append_copies(&mut updated, &current, 0, i);
            let state = WorkerState { url, available_range, last_ping: now };
            let w = Worker {
                worker_id: current[i].worker_id,
                desired_range: desired,
                state: Atom::new(Arc::new(state)),
            };
            let ghost new_model = w.model();
            updated.push(w);
            let ghost mid = updated@;
            append_copies(&mut updated, &current, i + 1, n);
            proof {
                assert(worker_models(mid) =~= worker_models(current@).subrange(0, i as int).push(
                    new_model,
                ));
                assert(worker_models(updated@) =~= ws0.update(i as int, new_model));
                assert(new_model =~= WorkerModel {
                    id: ws0[i as int].id,
                    desired_range: ws0[i as int].desired_range,
                    url: msg.worker_url@,
                    available_range: offered,
                    last_ping: now.value(),
                });
            }
            self.workers.set(Arc::new(updated));
            PingResponse { dataset: self.dataset.clone(), range: answer }
        } else {
            assert(!is_registered(ws0, id));
            let range = Arc::new(available_range.clone());
            let desired = share(&range);
            append_copies(&mut updated, &current, 0, n);
            let state = WorkerState { url, available_range, last_ping: now };
            let w = Worker { worker_id, desired_range: desired, state: Atom::new(Arc::new(state)) };
            let ghost new_model = w.model();
            let ghost before = updated@;
            assert(worker_models(before) =~= ws0);
            updated.push(w);
            proof {
                assert(updated@ == before.push(w));
                assert(worker_models(updated@) =~= ws0.push(new_model));
                assert(new_model =~= WorkerModel {
                    id,
                    desired_range: offered,
                    url: msg.worker_url@,
                    available_range: offered,
                    last_ping: now.value(),
                });
            }
            self.workers.set(Arc::new(updated));
            PingResponse { dataset: self.dataset.clone(), range }
        }
    }
}


impl StateManager {
    /// Records a ping at the current time and answers it, as
    /// [`StateManager::ping_at`] does for that time.
    pub fn ping(&mut self, msg: PingMessage) -> (resp: PingResponse)
        ensures
            exists|now: int|
                #[trigger] workers_after_ping(old(self).workers_view(), msg, old(self).dataset_view(), now)
                    == final(self).workers_view(),
            resp.dataset@ == old(self).dataset_view(),
            resp.range@ == range_for_ping(old(self).workers_view(), msg, old(self).dataset_view()),
            final(self).dataset_view() == old(self).dataset_view(),
            final(self).intervals_view() == old(self).intervals_view(),
            final(self).replication_view() == old(self).replication_view(),
            ids_distinct(final(self).workers_view()),
    {
        let now = clock_now();
        self.ping_at(msg, now)
    }

    /// The address of a worker to send a client to for the block, given the
    /// time `now` and a number `pick` that chooses among the candidates: the
    /// workers that pinged within the last 30 seconds and both report and are
    /// asked to hold the block. `None` when there is no candidate.
    pub fn pick_worker(&self, first_block: u32, now: Timestamp, pick: usize) -> (url: Option<String>)
        ensures
            url.deep_view() == picked_url(self.workers_view(), first_block, now.value(), pick),
    {
        let current = self.workers.get();
        let ghost ws = worker_models(current@);
        assert(ws == self.workers_view());
        let n = current.len();
        let mut candidates: Vec<String> = Vec::new();
        let mut i: usize = 0;
        assert(ws.take(0) =~= Seq::<WorkerModel>::empty());
        while i < n
            invariant
                n == current@.len(),
                ws == worker_models(current@),
                i <= n,
                candidates@.map_values(|c: String| c@) =~= candidate_urls(ws.take(i as int), first_block, now.value()),
            decreases n - i,
        {
            let w = &current[i];
            let st = w.state.get();
            let recent = within(now, st.last_ping, 30_000_000_000);
            let ghost prev = candidates@;
            assert(ws.take(i + 1).drop_last() =~= ws.take(i as int));
            assert(ws.take(i + 1).last() == w.model());
            if recent && st.available_range.has(first_block) && w.desired_range.has(
                first_block,
            ) {
                candidates.push(st.url.clone());
                assert(candidates@.map_values(|c: String| c@) =~= prev.map_values(|c: String| c@).push(
                    w.model().url,
                ));
            }
            i = i + 1;
        }
        assert(ws.take(n as int) =~= ws);
        if candidates.len() == 0 {
            None
        } else {
            let k = pick % candidates.len();
            let chosen = candidates[k].clone();
            assert(chosen@ == candidates@.map_values(|c: String| c@)[k as int]);
            Some(chosen)
        }
    }

    /// The address of a worker serving the block, chosen at random among the
    /// candidates at the current time, as [`StateManager::pick_worker`] does
    /// for that time and random number.
    pub fn get_worker(&self, first_block: u32) -> (url: Option<String>)
        ensures
            exists|now: int, pick: usize|
                url.deep_view() == #[trigger] picked_url(self.workers_view(), first_block, now, pick),
    {
        let now = clock_now();
        let pick = random_index();
        self.pick_worker(first_block, now, pick)
    }

    /// For each interval to place, the positions, among the workers that
    /// pinged within ten minutes of `now`, of those asked to hold the
    /// interval's first block.
    pub fn plan_holders(&self, now: Timestamp) -> (plan: Vec<Vec<usize>>)
        ensures
            plan@.len() == self.intervals_view().len(),
            forall|k: int|
                0 <= k < plan@.len() ==> (#[trigger] plan@[k])@ == holders(
                    live_desired_ranges(self.workers_view(), now.value()),
                    self.intervals_view()[k].0,
                ),
    {
        let current = self.workers.get();
        let ghost ws = worker_models(current@);
        assert(ws == self.workers_view());
        let n = current.len();
        let mut desired_ranges: Vec<Range> = Vec::new();
        let mut i: usize = 0;
        assert(ws.take(0) =~= Seq::<WorkerModel>::empty());
        while i < n
            invariant
                n == current@.len(),
                ws == worker_models(current@),
                i <= n,
                desired_ranges@.map_values(|r: Range| r@) =~= live_desired_ranges(ws.take(i as int), now.value()),
            decreases n - i,
        {
            let w = &current[i];
            let st = w.state.get();
            let live = within(now, st.last_ping, 600_000_000_000);
            let ghost prev = desired_ranges@;
            assert(ws.take(i + 1).drop_last() =~= ws.take(i as int));
            assert(ws.take(i + 1).last() == w.model());
            if live {
                let desired: &Range = &w.desired_range;
                desired_ranges.push(desired.clone());
                assert(desired_ranges@.map_values(|r: Range| r@) =~= prev.map_values(|r: Range| r@).push(
                    w.model().desired_range,
                ));
            }
            i = i + 1;
        }
        assert(ws.take(n as int) =~= ws);
        let ghost live = desired_ranges@.map_values(|r: Range| r@);
        let m = self.intervals.len();
        let mut plan: Vec<Vec<usize>> = Vec::new();
        let mut k: usize = 0;
        while k < m
            invariant
                m == self.intervals@.len(),
                k <= m,
                live == desired_ranges@.map_values(|r: Range| r@),
                live == live_desired_ranges(self.workers_view(), now.value()),
                plan@.len() == k,
                forall|q: int|
                    0 <= q < k ==> (#[trigger] plan@[q])@ == holders(live, self.intervals_view()[q].0),
            decreases m - k,
        {
            let block = self.intervals[k].begin();
            let r = desired_ranges.len();
            let mut held: Vec<usize> = Vec::new();
            let mut j: usize = 0;
            assert(live.take(0) =~= Seq::<Seq<(u32, u32)>>::empty());
            while j < r
                invariant
                    r == desired_ranges@.len(),
                    live == desired_ranges@.map_values(|r: Range| r@),
                    j <= r,
                    held@ =~= holders(live.take(j as int), block),
                decreases r - j,
            {
                assert(live.take(j + 1).drop_last() =~= live.take(j as int));
                assert(live.take(j + 1).last() == desired_ranges@[j as int]@);
                if desired_ranges[j].has(block) {
                    held.push(j);
                }
                j = j + 1;
            }
            assert(live.take(r as int) =~= live);
            assert(self.intervals_view()[k as int].0 == block);
            plan.push(held);
            k = k + 1;
        }
        plan
    }

    /// One scheduling round at the current time: works out, for each
    /// interval, which live workers are asked to hold it. Nothing is changed.
    pub fn schedule(&self) {
        let now = clock_now();
        let _plan = self.plan_holders(now);
    }
}


/// A ping keeps every registered worker at its place with its identity and
/// the range it was asked to hold, adds at most one worker, leaves the
/// identities distinct, and afterwards the pinging worker is registered with
/// the address, reported range and time of the ping.
pub proof fn lemma_ping_preserves_registrations(
    ws: Seq<WorkerModel>,
    msg: PingMessage,
    dataset: Seq<char>,
    now: int,
)
    requires
        ids_distinct(ws),
    ensures
        ({
            let after = workers_after_ping(ws, msg, dataset, now);
            &&& ws.len() <= after.len() <= ws.len() + 1
            &&& forall|i: int|
                0 <= i < ws.len() ==> (#[trigger] after[i]).id == ws[i].id && after[i].desired_range
                    == ws[i].desired_range
            &&& ids_distinct(after)
            &&& is_registered(after, ping_id(msg))
            &&& after[position_of(after, ping_id(msg))].url == msg.worker_url@
            &&& after[position_of(after, ping_id(msg))].available_range == offered_range(msg, dataset)
            &&& after[position_of(after, ping_id(msg))].last_ping == now
        }),
{
    let after = workers_after_ping(ws, msg, dataset, now);
    let id = ping_id(msg);
    if is_registered(ws, id) {
        let p = position_of(ws, id);
        assert(after[p].id == id);
        assert forall|i: int, j: int| 0 <= i < j < after.len() implies #[trigger] after[i].id
            != #[trigger] after[j].id by {
            assert(after[i].id == ws[i].id && after[j].id == ws[j].id);
        }
        let q = position_of(after, id);
        assert(q == p) by {
            if q != p {
                if q < p {
                    assert(after[q].id != after[p].id);
                } else {
                    assert(after[p].id != after[q].id);
                }
            }
        }
    } else {
        let last = ws.len() as int;
        assert(after[last].id == id);
        assert forall|i: int, j: int| 0 <= i < j < after.len() implies #[trigger] after[i].id
            != #[trigger] after[j].id by {
            if j == last {
                assert(ws[i].id != id);
            }
        }
        let q = position_of(after, id);
        assert(q == last) by {
            if q != last {
                assert(after[q].id != after[last].id);
            }
        }
    }
}

/// A worker is answered with the same range every time it pings: the range
/// it was asked to hold at its first ping. Pinging again adds no worker.
pub proof fn lemma_repeated_ping_same_answer(
    ws: Seq<WorkerModel>,
    first: PingMessage,
    again: PingMessage,
    dataset: Seq<char>,
    now: int,
)
    requires
        ids_distinct(ws),
        first.worker_id@ == again.worker_id@,
    ensures
        range_for_ping(workers_after_ping(ws, first, dataset, now), again, dataset)
            == range_for_ping(ws, first, dataset),
        workers_after_ping(workers_after_ping(ws, first, dataset, now), again, dataset, now).len()
            == workers_after_ping(ws, first, dataset, now).len(),
{
    lemma_ping_preserves_registrations(ws, first, dataset, now);
    let after = workers_after_ping(ws, first, dataset, now);
    let id = ping_id(first);
    assert(ping_id(again) == id);
    let q = position_of(after, id);
    if is_registered(ws, id) {
        let p = position_of(ws, id);
        assert(after[p].id == id);
        assert(q == p) by {
            if q != p {
                if q < p {
                    assert(after[q].id != after[p].id);
                } else {
                    assert(after[p].id != after[q].id);
                }
            }
        }
    } else {
        assert(q == ws.len()) by {
            if q < ws.len() {
                assert(after[q].id == ws[q].id);
            }
        }
    }
}

/// Some worker with this address serves the block.
pub open spec fn served_by(ws: Seq<WorkerModel>, block: u32, now: int, url: Seq<char>) -> bool {
    exists|i: int| 0 <= i < ws.len() && serves(#[trigger] ws[i], block, now) && ws[i].url == url
}

/// Every address among the candidates for a block belongs to a worker that
/// serves the block, and there are candidates exactly when some worker
/// serves it.
pub proof fn lemma_candidates_serve(ws: Seq<WorkerModel>, block: u32, now: int)
    ensures
        forall|k: int|
            0 <= k < candidate_urls(ws, block, now).len() ==> served_by(
                ws,
                block,
                now,
                #[trigger] candidate_urls(ws, block, now)[k],
            ),
        candidate_urls(ws, block, now).len() == 0 <==> forall|i: int|
            0 <= i < ws.len() ==> !serves(#[trigger] ws[i], block, now),
    decreases ws.len(),
{
    if ws.len() > 0 {
        let init = ws.drop_last();
        lemma_candidates_serve(init, block, now);
        let c = candidate_urls(ws, block, now);
        let ci = candidate_urls(init, block, now);
        assert forall|k: int| 0 <= k < c.len() implies served_by(ws, block, now, #[trigger] c[k]) by {
            if k < ci.len() {
                assert(served_by(init, block, now, ci[k]));
                let i = choose|i: int|
                    0 <= i < init.len() && serves(#[trigger] init[i], block, now) && init[i].url == ci[k];
                assert(ws[i] == init[i]);
            } else {
                assert(ws[ws.len() - 1] == ws.last());
            }
        }
        if c.len() == 0 {
            assert forall|i: int| 0 <= i < ws.len() implies !serves(#[trigger] ws[i], block, now) by {
                if i < init.len() {
                    assert(ws[i] == init[i]);
                }
            }
        } else {
            if ci.len() == 0 {
                assert(serves(ws[ws.len() - 1], block, now));
            } else {
                assert(served_by(init, block, now, ci[0]));
                let i = choose|i: int|
                    0 <= i < init.len() && serves(#[trigger] init[i], block, now) && init[i].url == ci[0];
                assert(ws[i] == init[i]);
            }
        }
    }
}

/// The holders of a block are positions of ranges that hold it, in strictly
/// increasing order, and every range that holds it is listed.
pub proof fn lemma_holders_exact(ranges: Seq<Seq<(u32, u32)>>, block: u32)
    requires
        ranges.len() <= usize::MAX,
    ensures
        forall|k: int|
            0 <= k < holders(ranges, block).len() ==> {
                let p = #[trigger] holders(ranges, block)[k] as int;
                0 <= p < ranges.len() && seq_has(ranges[p], block as int)
            },
        forall|k: int, l: int|
            0 <= k < l < holders(ranges, block).len() ==> #[trigger] holders(ranges, block)[k]
                < #[trigger] holders(ranges, block)[l],
        forall|p: int|
            0 <= p < ranges.len() && seq_has(#[trigger] ranges[p], block as int) ==> holders(
                ranges,
                block,
            ).contains(p as usize),
    decreases ranges.len(),
{
    if ranges.len() > 0 {
        let init = ranges.drop_last();
        lemma_holders_exact(init, block);
        let h = holders(ranges, block);
        let hi = holders(init, block);
        assert forall|k: int| 0 <= k < h.len() implies {
            let p = #[trigger] h[k] as int;
            0 <= p < ranges.len() && seq_has(ranges[p], block as int)
        } by {
            if k < hi.len() {
                assert(h[k] == hi[k]);
                assert(ranges[hi[k] as int] == init[hi[k] as int]);
            } else {
                assert(h[k] == (ranges.len() - 1) as usize);
            }
        }
        assert forall|k: int, l: int| 0 <= k < l < h.len() implies #[trigger] h[k] < #[trigger] h[l] by {
            if l < hi.len() {
                assert(h[k] == hi[k] && h[l] == hi[l]);
            } else {
                assert(h[k] == hi[k]);
            }
        }
        assert forall|p: int| 0 <= p < ranges.len() && seq_has(#[trigger] ranges[p], block as int) implies h.contains(
            p as usize,
        ) by {
            if p < init.len() {
                assert(init[p] == ranges[p]);
                let k = choose|k: int| 0 <= k < hi.len() && hi[k] == p as usize;
                assert(h[k] == hi[k]);
            } else {
                assert(h[h.len() - 1] == p as usize);
            }
        }
    }
}

/// The address picked for a block, whatever the random number, is that of a
/// worker serving the block, and none is picked exactly when no worker
/// serves it.
pub proof fn lemma_picked_worker_serves(ws: Seq<WorkerModel>, block: u32, now: int, pick: usize)
    ensures
        picked_url(ws, block, now, pick) matches Some(url) ==> served_by(ws, block, now, url),
        picked_url(ws, block, now, pick) is None <==> forall|i: int|
            0 <= i < ws.len() ==> !serves(#[trigger] ws[i], block, now),
{
    lemma_candidates_serve(ws, block, now);
    let c = candidate_urls(ws, block, now);
    if c.len() > 0 {
        let k = pick as int % c.len() as int;
        assert(0 <= k < c.len());
        assert(served_by(ws, block, now, c[k]));
    }
}

/// How many of the workers serve the block.
pub open spec fn serving_count(ws: Seq<WorkerModel>, block: u32, now: int) -> nat
    decreases ws.len(),
{
    if ws.len() == 0 {
        0
    } else {
        serving_count(ws.drop_last(), block, now) + if serves(ws.last(), block, now) {
            1nat
        } else {
            0nat
        }
    }
}

/// How many of the workers pinged within ten minutes of `now`.
pub open spec fn live_count(ws: Seq<WorkerModel>, now: int) -> nat
    decreases ws.len(),
{
    if ws.len() == 0 {
        0
    } else {
        live_count(ws.drop_last(), now) + if elapsed(now, ws.last().last_ping) < alive_window() {
            1nat
        } else {
            0nat
        }
    }
}

/// Some worker serving the block has exactly `r` serving workers registered
/// before it.
pub open spec fn serving_rank_held(ws: Seq<WorkerModel>, block: u32, now: int, r: int) -> bool {
    exists|i: int|
        0 <= i < ws.len() && serves(#[trigger] ws[i], block, now) && serving_count(ws.take(i), block, now) == r
}

/// Some live worker has exactly `r` live workers registered before it.
pub open spec fn live_rank_held(ws: Seq<WorkerModel>, now: int, r: int) -> bool {
    exists|i: int|
        0 <= i < ws.len() && elapsed(now, (#[trigger] ws[i]).last_ping) < alive_window() && live_count(ws.take(i), now)
            == r
}

proof fn lemma_serving_ranks(ws: Seq<WorkerModel>, block: u32, now: int)
    ensures
        candidate_urls(ws, block, now).len() == serving_count(ws, block, now),
        forall|i: int|
            0 <= i < ws.len() && serves(#[trigger] ws[i], block, now) ==> serving_count(ws.take(i), block, now)
                < serving_count(ws, block, now) && candidate_urls(ws, block, now)[serving_count(
                ws.take(i),
                block,
                now,
            ) as int] == ws[i].url,
        forall|r: int| 0 <= r < serving_count(ws, block, now) ==> #[trigger] serving_rank_held(ws, block, now, r),
    decreases ws.len(),
{
    if ws.len() > 0 {
        let init = ws.drop_last();
        let last = ws.len() - 1;
        lemma_serving_ranks(init, block, now);
        assert(ws.take(last) =~= init);
        assert forall|i: int|
            0 <= i < ws.len() && serves(#[trigger] ws[i], block, now) implies serving_count(ws.take(i), block, now)
                < serving_count(ws, block, now) && candidate_urls(ws, block, now)[serving_count(
                ws.take(i),
                block,
                now,
            ) as int] == ws[i].url by {
            if i < last {
                assert(ws.take(i) =~= init.take(i));
                assert(ws[i] == init[i]);
            }
        }
        assert forall|r: int| 0 <= r < serving_count(ws, block, now) implies #[trigger] serving_rank_held(
            ws,
            block,
            now,
            r,
        ) by {
            if r < serving_count(init, block, now) {
                assert(serving_rank_held(init, block, now, r));
                let i = choose|i: int|
                    0 <= i < init.len() && serves(#[trigger] init[i], block, now) && serving_count(
                        init.take(i),
                        block,
                        now,
                    ) == r;
                assert(ws.take(i) =~= init.take(i));
                assert(ws[i] == init[i]);
            } else {
                assert(serves(ws[last], block, now));
                assert(serving_count(ws.take(last), block, now) == r);
            }
        }
    }
}

/// Picking among the workers that serve a block goes by rank: with `n`
/// such workers, pick `p` gets the address of the serving worker with
/// exactly `p mod n` serving workers registered before it, however many
/// workers are registered in all; there is no pick exactly when `n` is 0.
pub proof fn lemma_pick_selects_by_rank(ws: Seq<WorkerModel>, block: u32, now: int, pick: usize)
    ensures
        picked_url(ws, block, now, pick) is None <==> serving_count(ws, block, now) == 0,
        serving_count(ws, block, now) > 0 ==> exists|i: int|
            0 <= i < ws.len() && serves(#[trigger] ws[i], block, now) && serving_count(ws.take(i), block, now)
                == pick as int % serving_count(ws, block, now) as int && picked_url(ws, block, now, pick)
                == Some(ws[i].url),
{
    lemma_serving_ranks(ws, block, now);
    let n = serving_count(ws, block, now);
    if n > 0 {
        let r = pick as int % n as int;
        assert(0 <= r < n);
        assert(serving_rank_held(ws, block, now, r));
        let i = choose|i: int|
            0 <= i < ws.len() && serves(#[trigger] ws[i], block, now) && serving_count(ws.take(i), block, now)
                == r;
        assert(serves(ws[i], block, now));
    }
}

/// The ranges used for scheduling are those of the workers that pinged
/// within ten minutes, one for each such worker, in registration order:
/// their number is the number of live workers, and the live worker with
/// `k` live workers registered before it has its desired range at position
/// `k`.
pub proof fn lemma_live_ranges_by_rank(ws: Seq<WorkerModel>, now: int)
    ensures
        live_desired_ranges(ws, now).len() == live_count(ws, now),
        forall|i: int|
            0 <= i < ws.len() && elapsed(now, (#[trigger] ws[i]).last_ping) < alive_window() ==> live_count(
                ws.take(i),
                now,
            ) < live_count(ws, now) && live_desired_ranges(ws, now)[live_count(ws.take(i), now) as int]
                == ws[i].desired_range,
        forall|r: int| 0 <= r < live_count(ws, now) ==> #[trigger] live_rank_held(ws, now, r),
    decreases ws.len(),
{
    if ws.len() > 0 {
        let init = ws.drop_last();
        let last = ws.len() - 1;
        lemma_live_ranges_by_rank(init, now);
        assert(ws.take(last) =~= init);
        assert forall|i: int|
            0 <= i < ws.len() && elapsed(now, (#[trigger] ws[i]).last_ping) < alive_window() implies live_count(
                ws.take(i),
                now,
            ) < live_count(ws, now) && live_desired_ranges(ws, now)[live_count(ws.take(i), now) as int]
                == ws[i].desired_range by {
            if i < last {
                assert(ws.take(i) =~= init.take(i));
                assert(ws[i] == init[i]);
            }
        }
        assert forall|r: int| 0 <= r < live_count(ws, now) implies #[trigger] live_rank_held(ws, now, r) by {
            if r < live_count(init, now) {
                assert(live_rank_held(init, now, r));
                let i = choose|i: int|
                    0 <= i < init.len() && elapsed(now, (#[trigger] init[i]).last_ping) < alive_window()
                        && live_count(init.take(i), now) == r;
                assert(ws.take(i) =~= init.take(i));
                assert(ws[i] == init[i]);
            } else {
                assert(elapsed(now, ws[last].last_ping) < alive_window());
                assert(live_count(ws.take(last), now) == r);
            }
        }
    }
}

} // verus!
