//! The bus-agnostic broker behind `org.cymru.Radio`: subscriptions, carrier
//! availability and, in development mode, loopback delivery of sent messages.

use vstd::prelude::*;
use vstd::string::StringExecFns;
use crate::bytes::copy_range;

verus! {

/// A request an app sends to the bridge (mirrors the `org.cymru.Radio` methods).
#[derive(Debug, Clone, PartialEq)]
pub enum Request {
    /// Subscribe to a channel (`""` = every frame addressed to this device).
    Subscribe { channel: String },
    Unsubscribe { sub_id: u64 },
    /// Direct send; `recipient` is a hex device id or `"broadcast"`.
    Send { recipient: String, channel: String, payload: Vec<u8> },
    /// Carrier availability query.
    GetCarriers,
}

/// An event or response the bridge emits to apps.
#[derive(Debug, Clone, PartialEq)]
pub enum Event {
    Subscribed { sub_id: u64 },
    Unsubscribed { sub_id: u64 },
    /// Mirrors the `MessageReceived` signal.
    MessageReceived { sub_id: u64, sender: String, channel: String, payload: Vec<u8> },
    Carriers { lora_868: bool, lora_915: bool, hf_codec2: bool },
    Error { message: String },
}

/// Mathematical value of a [`Request`].
pub enum RequestValue {
    Subscribe { channel: Seq<char> },
    Unsubscribe { sub_id: u64 },
    Send { recipient: Seq<char>, channel: Seq<char>, payload: Seq<u8> },
    GetCarriers,
}

/// Mathematical value of an [`Event`].
pub enum EventValue {
    Subscribed { sub_id: u64 },
    Unsubscribed { sub_id: u64 },
    MessageReceived { sub_id: u64, sender: Seq<char>, channel: Seq<char>, payload: Seq<u8> },
    Carriers { lora_868: bool, lora_915: bool, hf_codec2: bool },
    Error { message: Seq<char> },
}

impl View for Request {
    type V = RequestValue;

    open spec fn view(&self) -> RequestValue {
        match self {
            Request::Subscribe { channel } => RequestValue::Subscribe { channel: channel@ },
            Request::Unsubscribe { sub_id } => RequestValue::Unsubscribe { sub_id: *sub_id },
            Request::Send { recipient, channel, payload } => RequestValue::Send {
                recipient: recipient@,
                channel: channel@,
                payload: payload@,
            },
            Request::GetCarriers => RequestValue::GetCarriers,
        }
    }
}

impl View for Event {
    type V = EventValue;

    open spec fn view(&self) -> EventValue {
        match self {
            Event::Subscribed { sub_id } => EventValue::Subscribed { sub_id: *sub_id },
            Event::Unsubscribed { sub_id } => EventValue::Unsubscribed { sub_id: *sub_id },
            Event::MessageReceived { sub_id, sender, channel, payload } => EventValue::MessageReceived {
                sub_id: *sub_id,
                sender: sender@,
                channel: channel@,
                payload: payload@,
            },
            Event::Carriers { lora_868, lora_915, hf_codec2 } => EventValue::Carriers {
                lora_868: *lora_868,
                lora_915: *lora_915,
                hf_codec2: *hf_codec2,
            },
            Event::Error { message } => EventValue::Error { message: message@ },
        }
    }
}

/// Bus-agnostic broker. In development (loopback) mode a sent message is
/// delivered back to every matching subscriber, so adapters can be exercised
/// end to end without a peer radio.
#[derive(Debug)]
pub struct Broker {
    subs: Vec<(u64, String)>,
    next_sub: u64,
    /// Loopback delivery for development mode (real mode hands sends to the radio daemon).
    pub loopback: bool,
}

/// Mathematical state of a [`Broker`].
pub struct BrokerState {
    /// Subscriptions in creation order: (id, channel).
    pub subs: Seq<(u64, Seq<char>)>,
    /// Id the next subscription gets.
    pub next_sub: u64,
    pub loopback: bool,
}

impl View for Broker {
    type V = BrokerState;

    closed spec fn view(&self) -> BrokerState {
        BrokerState {
            subs: self.subs@.map_values(|s: (u64, String)| (s.0, s.1@)),
            next_sub: self.next_sub,
            loopback: self.loopback,
        }
    }
}

/// Subscriptions other than `id`, in order.
pub open spec fn without_sub(subs: Seq<(u64, Seq<char>)>, id: u64) -> Seq<(u64, Seq<char>)>
    decreases subs.len(),
{
    if subs.len() == 0 {
        subs
    } else {
        let rest = without_sub(subs.drop_last(), id);
        if subs.last().0 == id {
            rest
        } else {
            rest.push(subs.last())
        }
    }
}

/// The sender name loopback deliveries carry.
pub open spec fn loopback_sender() -> Seq<char> {
    "dev-loopback"@
}

/// Whether a subscription to `sub_channel` receives a message on `channel`
/// (the empty channel is a wildcard).
pub open spec fn channel_matches(sub_channel: Seq<char>, channel: Seq<char>) -> bool {
    sub_channel.len() == 0 || sub_channel == channel
}

/// One `MessageReceived` per matching subscription, in subscription order.
pub open spec fn deliveries(subs: Seq<(u64, Seq<char>)>, channel: Seq<char>, payload: Seq<u8>) -> Seq<EventValue>
    decreases subs.len(),
{
    if subs.len() == 0 {
        seq![]
    } else {
        let rest = deliveries(subs.drop_last(), channel, payload);
        if channel_matches(subs.last().1, channel) {
            rest.push(
                EventValue::MessageReceived { sub_id: subs.last().0, sender: loopback_sender(), channel, payload },
            )
        } else {
            rest
        }
    }
}

/// The broker's next state and the events it emits for a request.
pub open spec fn handle_spec(s: BrokerState, req: RequestValue) -> (BrokerState, Seq<EventValue>) {
    match req {
        RequestValue::Subscribe { channel } => (
            BrokerState { subs: s.subs.push((s.next_sub, channel)), next_sub: (s.next_sub + 1) as u64, loopback: s.loopback },
            seq![EventValue::Subscribed { sub_id: s.next_sub }],
        ),
        RequestValue::Unsubscribe { sub_id } => (
            BrokerState { subs: without_sub(s.subs, sub_id), next_sub: s.next_sub, loopback: s.loopback },
            seq![EventValue::Unsubscribed { sub_id }],
        ),
        RequestValue::GetCarriers => (
            s,
            seq![EventValue::Carriers { lora_868: true, lora_915: false, hf_codec2: false }],
        ),
        RequestValue::Send { recipient, channel, payload } => if s.loopback {
            (s, deliveries(s.subs, channel, payload))
        } else {
            (s, seq![])
        },
    }
}

impl Broker {
    /// A broker with no subscriptions; ids start at 1.
    pub fn new(loopback: bool) -> (b: Broker)
        ensures
            b@.subs == Seq::<(u64, Seq<char>)>::empty(),
            b@.next_sub == 1,
            b@.loopback == loopback,
            ids_fresh(b@),
    {
        let b = Broker { subs: Vec::new(), next_sub: 1, loopback };
        assert(b@.subs =~= Seq::<(u64, Seq<char>)>::empty());
        b
    }

    /// The id the next subscription gets.
    pub fn next_sub_id(&self) -> (n: u64)
        ensures
            n == self@.next_sub,
    {
        self.next_sub
    }

    /// Handles one request and returns the events it produces.
    pub fn handle(&mut self, req: Request) -> (events: Vec<Event>)
        requires
            req@ is Subscribe ==> old(self)@.next_sub < u64::MAX,
        ensures
            final(self)@ == handle_spec(old(self)@, req@).0,
            events@.map_values(|e: Event| e@) == handle_spec(old(self)@, req@).1,
    {
        let ghost subs0 = self@.subs;
        let ghost req_v = req@;
        match req {
            Request::Subscribe { channel } => {
                let id = self.next_sub;
                self.next_sub = id + 1;
                let ghost ch = channel@;
                self.subs.push((id, channel));
                assert(self@.subs =~= subs0.push((id, ch)));
                let mut events: Vec<Event> = Vec::new();
                events.push(Event::Subscribed { sub_id: id });
                assert(events@.map_values(|e: Event| e@) =~= handle_spec(old(self)@, req_v).1);
                events
            },
            Request::Unsubscribe { sub_id } => {
                let mut kept: Vec<(u64, String)> = Vec::new();
                let mut i: usize = 0;
                while i < self.subs.len()
                    invariant
                        subs0 == self@.subs,
                        i <= self.subs@.len(),
                        kept@.map_values(|s: (u64, String)| (s.0, s.1@)) == without_sub(subs0.take(i as int), sub_id),
                    decreases self.subs@.len() - i,
                {
                    let ghost before = kept@.map_values(|s: (u64, String)| (s.0, s.1@));
                    assert(subs0.take(i + 1).drop_last() =~= subs0.take(i as int));
                    if self.subs[i].0 != sub_id {
                        let id = self.subs[i].0;
                        let ch = self.subs[i].1.clone();
                        kept.push((id, ch));
                        assert(kept@.map_values(|s: (u64, String)| (s.0, s.1@)) =~= before.push(subs0[i as int]));
                    }
                    i += 1;
                }
                assert(subs0.take(i as int) =~= subs0);
                self.subs = kept;
                let mut events: Vec<Event> = Vec::new();
                events.push(Event::Unsubscribed { sub_id });
                assert(events@.map_values(|e: Event| e@) =~= handle_spec(old(self)@, req_v).1);
                events
            },
            Request::GetCarriers => {
                let mut events: Vec<Event> = Vec::new();
                events.push(Event::Carriers { lora_868: true, lora_915: false, hf_codec2: false });
                assert(events@.map_values(|e: Event| e@) =~= handle_spec(old(self)@, req_v).1);
                events
            },
            Request::Send { recipient, channel, payload } => {
                let mut events: Vec<Event> = Vec::new();
                if !self.loopback {
                    assert(events@.map_values(|e: Event| e@) =~= Seq::<EventValue>::empty());
                    return events;
                }
                let mut i: usize = 0;
                while i < self.subs.len()
                    invariant
                        subs0 == self@.subs,
                        i <= self.subs@.len(),
                        events@.map_values(|e: Event| e@) == deliveries(subs0.take(i as int), channel@, payload@),
                    decreases self.subs@.len() - i,
                {
                    let ghost before = events@.map_values(|e: Event| e@);
                    assert(subs0.take(i + 1).drop_last() =~= subs0.take(i as int));
                    let c = &self.subs[i].1;
                    if c.as_str().is_empty() || *c == channel {
                        let sender = String::from_str("dev-loopback");
                        let body = copy_range(payload.as_slice(), 0, payload.len());
                        assert(body@ =~= payload@);
                        let ev = Event::MessageReceived {
                            sub_id: self.subs[i].0,
                            sender,
                            channel: channel.clone(),
                            payload: body,
                        };
                        assert(ev@ == EventValue::MessageReceived { sub_id: subs0[i as int].0, sender: loopback_sender(), channel: channel@, payload: payload@ });
                        events.push(ev);
                        assert(events@.map_values(|e: Event| e@) =~= before.push(
                            EventValue::MessageReceived { sub_id: subs0[i as int].0, sender: loopback_sender(), channel: channel@, payload: payload@ },
                        ));
                    }
                    i += 1;
                }
                assert(subs0.take(i as int) =~= subs0);
                events
            },
        }
    }
}

impl Default for Broker {
    fn default() -> (b: Broker)
        ensures
            b@.subs == Seq::<(u64, Seq<char>)>::empty(),
            b@.next_sub == 0,
            !b@.loopback,
    {
        let b = Broker { subs: Vec::new(), next_sub: 0, loopback: false };
        assert(b@.subs =~= Seq::<(u64, Seq<char>)>::empty());
        b
    }
}

/// Subscription ids are increasing in creation order and below the next id,
/// so no two subscriptions share an id.
pub open spec fn ids_fresh(s: BrokerState) -> bool {
    &&& forall|i: int, j: int| 0 <= i < j < s.subs.len() ==> #[trigger] s.subs[i].0 < #[trigger] s.subs[j].0
    &&& forall|i: int| 0 <= i < s.subs.len() ==> #[trigger] s.subs[i].0 < s.next_sub
}

/// Whether `events` hold a loopback delivery of `payload` on `channel` to
/// subscription `id`.
pub open spec fn delivered_to(events: Seq<EventValue>, id: u64, channel: Seq<char>, payload: Seq<u8>) -> bool {
    exists|k: int|
        0 <= k < events.len() && #[trigger] events[k] == (EventValue::MessageReceived {
            sub_id: id,
            sender: loopback_sender(),
            channel,
            payload,
        })
}

/// Whether some subscription with this id listens on a channel matching `channel`.
pub open spec fn listens(subs: Seq<(u64, Seq<char>)>, id: u64, channel: Seq<char>) -> bool {
    exists|i: int| 0 <= i < subs.len() && #[trigger] subs[i].0 == id && channel_matches(subs[i].1, channel)
}

proof fn lemma_deliveries(subs: Seq<(u64, Seq<char>)>, channel: Seq<char>, payload: Seq<u8>, id: u64)
    ensures
        delivered_to(deliveries(subs, channel, payload), id, channel, payload) <==> listens(subs, id, channel),
        forall|k: int| 0 <= k < deliveries(subs, channel, payload).len()
            ==> (#[trigger] deliveries(subs, channel, payload)[k]) is MessageReceived,
    decreases subs.len(),
{
    if subs.len() > 0 {
        let rest = subs.drop_last();
        lemma_deliveries(rest, channel, payload, id);
        let d = deliveries(subs, channel, payload);
        let dr = deliveries(rest, channel, payload);
        let ev = EventValue::MessageReceived { sub_id: id, sender: loopback_sender(), channel, payload };
        if listens(subs, id, channel) {
            let i = choose|i: int| 0 <= i < subs.len() && #[trigger] subs[i].0 == id && channel_matches(subs[i].1, channel);
            if i < rest.len() {
                assert(rest[i] == subs[i]);
                assert(listens(rest, id, channel));
                let k = choose|k: int| 0 <= k < dr.len() && #[trigger] dr[k] == ev;
                assert(d[k] == dr[k]);
            } else {
                assert(d[d.len() - 1] == ev);
            }
        }
        if delivered_to(d, id, channel, payload) {
            let k = choose|k: int| 0 <= k < d.len() && #[trigger] d[k] == ev;
            if k < dr.len() {
                assert(d[k] == dr[k]);
                assert(delivered_to(dr, id, channel, payload));
                let i = choose|i: int| 0 <= i < rest.len() && #[trigger] rest[i].0 == id && channel_matches(rest[i].1, channel);
                assert(subs[i] == rest[i]);
            } else {
                assert(subs[subs.len() - 1].0 == id);
            }
        }
        assert forall|k: int| 0 <= k < d.len() implies (#[trigger] d[k]) is MessageReceived by {
            if k < dr.len() {
                assert(d[k] == dr[k]);
            }
        }
    }
}

proof fn lemma_without_sub(subs: Seq<(u64, Seq<char>)>, id: u64)
    ensures
        forall|k: int| 0 <= k < without_sub(subs, id).len() ==> (#[trigger] without_sub(subs, id)[k]).0 != id
            && exists|i: int| 0 <= i < subs.len() && subs[i] == without_sub(subs, id)[k],
        forall|i: int| 0 <= i < subs.len() && (#[trigger] subs[i]).0 != id
            ==> exists|k: int| 0 <= k < without_sub(subs, id).len() && without_sub(subs, id)[k] == subs[i],
    decreases subs.len(),
{
    if subs.len() > 0 {
        let rest = subs.drop_last();
        lemma_without_sub(rest, id);
        let w = without_sub(subs, id);
        let wr = without_sub(rest, id);
        assert forall|k: int| 0 <= k < w.len() implies (#[trigger] w[k]).0 != id
            && exists|i: int| 0 <= i < subs.len() && subs[i] == w[k] by {
            if k < wr.len() {
                assert(w[k] == wr[k]);
                let i = choose|i: int| 0 <= i < rest.len() && rest[i] == wr[k];
                assert(subs[i] == rest[i]);
            } else {
                assert(w[k] == subs[subs.len() - 1]);
            }
        }
        assert forall|i: int| 0 <= i < subs.len() && (#[trigger] subs[i]).0 != id
            implies exists|k: int| 0 <= k < w.len() && w[k] == subs[i] by {
            if i < rest.len() {
                assert(rest[i] == subs[i]);
                let k = choose|k: int| 0 <= k < wr.len() && wr[k] == rest[i];
                assert(w[k] == wr[k]);
            } else {
                assert(w[w.len() - 1] == subs[i]);
            }
        }
    }
}

proof fn lemma_fresh_unsubscribe(s: BrokerState, id: u64)
    requires
        ids_fresh(s),
    ensures
        ids_fresh(BrokerState { subs: without_sub(s.subs, id), next_sub: s.next_sub, loopback: s.loopback }),
{
    lemma_without_sub_order(s.subs, id);
    lemma_without_sub_bound(s.subs, id, s.next_sub);
}

proof fn lemma_without_sub_bound(subs: Seq<(u64, Seq<char>)>, id: u64, bound: u64)
    requires
        forall|i: int| 0 <= i < subs.len() ==> #[trigger] subs[i].0 < bound,
    ensures
        forall|k: int| 0 <= k < without_sub(subs, id).len() ==> #[trigger] without_sub(subs, id)[k].0 < bound,
    decreases subs.len(),
{
    if subs.len() > 0 {
        let rest = subs.drop_last();
        assert forall|i: int| 0 <= i < rest.len() implies #[trigger] rest[i].0 < bound by {
            assert(rest[i] == subs[i]);
        }
        lemma_without_sub_bound(rest, id, bound);
        let w = without_sub(subs, id);
        let wr = without_sub(rest, id);
        assert forall|k: int| 0 <= k < w.len() implies #[trigger] w[k].0 < bound by {
            if k < wr.len() {
                assert(w[k] == wr[k]);
            } else {
                assert(w[k] == subs[subs.len() - 1]);
            }
        }
    }
}

proof fn lemma_fresh_subscribe(s: BrokerState, channel: Seq<char>)
    requires
        ids_fresh(s),
        s.next_sub < u64::MAX,
    ensures
        ids_fresh(BrokerState { subs: s.subs.push((s.next_sub, channel)), next_sub: (s.next_sub + 1) as u64, loopback: s.loopback }),
{
    let t = s.subs.push((s.next_sub, channel));
    assert forall|i: int, j: int| 0 <= i < j < t.len() implies #[trigger] t[i].0 < #[trigger] t[j].0 by {
        assert(t[i] == s.subs[i]);
        if j < s.subs.len() {
            assert(t[j] == s.subs[j]);
        }
    }
    assert forall|i: int| 0 <= i < t.len() implies #[trigger] t[i].0 < s.next_sub + 1 by {
        if i < s.subs.len() {
            assert(t[i] == s.subs[i]);
        }
    }
}

/// Every request keeps subscription ids increasing and below the next id:
/// a new broker starts so, and each subscription gets an id no other has.
pub proof fn law_ids_stay_fresh(s: BrokerState, req: RequestValue)
    requires
        ids_fresh(s),
        req is Subscribe ==> s.next_sub < u64::MAX,
    ensures
        ids_fresh(handle_spec(s, req).0),
{
    match req {
        RequestValue::Unsubscribe { sub_id } => lemma_fresh_unsubscribe(s, sub_id),
        RequestValue::Subscribe { channel } => lemma_fresh_subscribe(s, channel),
        _ => {},
    }
}

proof fn lemma_without_sub_order(subs: Seq<(u64, Seq<char>)>, id: u64)
    requires
        forall|i: int, j: int| 0 <= i < j < subs.len() ==> #[trigger] subs[i].0 < #[trigger] subs[j].0,
    ensures
        forall|i: int, j: int| 0 <= i < j < without_sub(subs, id).len()
            ==> #[trigger] without_sub(subs, id)[i].0 < #[trigger] without_sub(subs, id)[j].0,
        forall|k: int| 0 <= k < without_sub(subs, id).len() && subs.len() > 0
            ==> #[trigger] without_sub(subs, id)[k].0 <= subs.last().0,
    decreases subs.len(),
{
    if subs.len() > 0 {
        let rest = subs.drop_last();
        assert forall|i: int, j: int| 0 <= i < j < rest.len() implies #[trigger] rest[i].0 < #[trigger] rest[j].0 by {
            assert(rest[i] == subs[i] && rest[j] == subs[j]);
        }
        lemma_without_sub_order(rest, id);
        let w = without_sub(subs, id);
        let wr = without_sub(rest, id);
        if rest.len() > 0 {
            assert(rest.last() == subs[rest.len() - 1]);
            assert(rest.last().0 < subs.last().0);
        }
        assert forall|k: int| 0 <= k < w.len() implies #[trigger] w[k].0 <= subs.last().0 by {
            if k < wr.len() {
                assert(w[k] == wr[k]);
            }
        }
        assert forall|i: int, j: int| 0 <= i < j < w.len() implies #[trigger] w[i].0 < #[trigger] w[j].0 by {
            if j < wr.len() {
                assert(w[i] == wr[i] && w[j] == wr[j]);
            } else {
                assert(w[i] == wr[i]);
                assert(w[j] == subs.last());
            }
        }
    }
}

/// In loopback mode a send reaches exactly the subscriptions listening on a
/// matching channel (the empty channel hears everything), each with the
/// payload, the channel and the loopback sender, and nothing else is
/// emitted; outside loopback mode a send emits nothing. Either way the
/// broker's state is unchanged.
pub proof fn law_send_reaches_listeners(
    s: BrokerState,
    recipient: Seq<char>,
    channel: Seq<char>,
    payload: Seq<u8>,
    id: u64,
)
    ensures
        ({
            let (next, events) = handle_spec(s, RequestValue::Send { recipient, channel, payload });
            &&& next == s
            &&& s.loopback ==> (delivered_to(events, id, channel, payload) <==> listens(s.subs, id, channel))
            &&& s.loopback ==> forall|k: int| 0 <= k < events.len() ==> (#[trigger] events[k]) is MessageReceived
            &&& !s.loopback ==> events.len() == 0
        }),
{
    lemma_deliveries(s.subs, channel, payload, id);
}

/// After unsubscribing `id`, a send in loopback mode reaches no subscription
/// with that id, and every other subscription exactly as before.
pub proof fn law_unsubscribe_stops_delivery(
    s: BrokerState,
    id: u64,
    other: u64,
    recipient: Seq<char>,
    channel: Seq<char>,
    payload: Seq<u8>,
)
    requires
        s.loopback,
    ensures
        ({
            let after = handle_spec(s, RequestValue::Unsubscribe { sub_id: id }).0;
            let events = handle_spec(after, RequestValue::Send { recipient, channel, payload }).1;
            let before = handle_spec(s, RequestValue::Send { recipient, channel, payload }).1;
            &&& !delivered_to(events, id, channel, payload)
            &&& other != id ==> (delivered_to(events, other, channel, payload) <==> delivered_to(before, other, channel, payload))
        }),
{
    let w = without_sub(s.subs, id);
    lemma_without_sub(s.subs, id);
    lemma_deliveries(w, channel, payload, id);
    lemma_deliveries(w, channel, payload, other);
    lemma_deliveries(s.subs, channel, payload, other);
    if listens(w, id, channel) {
        let i = choose|i: int| 0 <= i < w.len() && #[trigger] w[i].0 == id && channel_matches(w[i].1, channel);
        assert(w[i].0 != id);
    }
    if other != id {
        if listens(w, other, channel) {
            let k = choose|k: int| 0 <= k < w.len() && #[trigger] w[k].0 == other && channel_matches(w[k].1, channel);
            let i = choose|i: int| 0 <= i < s.subs.len() && s.subs[i] == w[k];
            assert(s.subs[i].0 == other);
        }
        if listens(s.subs, other, channel) {
            let i = choose|i: int| 0 <= i < s.subs.len() && #[trigger] s.subs[i].0 == other && channel_matches(s.subs[i].1, channel);
            let k = choose|k: int| 0 <= k < w.len() && w[k] == s.subs[i];
            assert(w[k].0 == other);
        }
    }
}

/// Once an id that was already issued has no subscription, it never gets one
/// back and no later request delivers to it: ids are never reissued, so an
/// unsubscribed id stays silent for every request that follows, not only the
/// next send.
pub proof fn law_unsubscribed_id_stays_silent(s: BrokerState, req: RequestValue, id: u64)
    requires
        id < s.next_sub,
        forall|i: int| 0 <= i < s.subs.len() ==> #[trigger] s.subs[i].0 != id,
        req is Subscribe ==> s.next_sub < u64::MAX,
    ensures
        ({
            let (next, events) = handle_spec(s, req);
            &&& id < next.next_sub
            &&& forall|i: int| 0 <= i < next.subs.len() ==> #[trigger] next.subs[i].0 != id
            &&& forall|channel: Seq<char>, payload: Seq<u8>| !delivered_to(events, id, channel, payload)
        }),
{
    match req {
        RequestValue::Subscribe { channel } => {
            let t = s.subs.push((s.next_sub, channel));
            assert forall|i: int| 0 <= i < t.len() implies #[trigger] t[i].0 != id by {
                if i < s.subs.len() {
                    assert(t[i] == s.subs[i]);
                }
            }
            let events = handle_spec(s, req).1;
            assert forall|channel: Seq<char>, payload: Seq<u8>| !delivered_to(events, id, channel, payload) by {
                if delivered_to(events, id, channel, payload) {
                    let k = choose|k: int| 0 <= k < events.len() && #[trigger] events[k] == (EventValue::MessageReceived {
                        sub_id: id,
                        sender: loopback_sender(),
                        channel,
                        payload,
                    });
                    assert(events[k] is Subscribed);
                }
            }
        },
        RequestValue::Unsubscribe { sub_id } => {
            lemma_without_sub(s.subs, sub_id);
            let w = without_sub(s.subs, sub_id);
            assert forall|i: int| 0 <= i < w.len() implies #[trigger] w[i].0 != id by {
                let j = choose|j: int| 0 <= j < s.subs.len() && s.subs[j] == w[i];
                assert(s.subs[j].0 != id);
            }
            let events = handle_spec(s, req).1;
            assert forall|channel: Seq<char>, payload: Seq<u8>| !delivered_to(events, id, channel, payload) by {
                if delivered_to(events, id, channel, payload) {
                    let k = choose|k: int| 0 <= k < events.len() && #[trigger] events[k] == (EventValue::MessageReceived {
                        sub_id: id,
                        sender: loopback_sender(),
                        channel,
                        payload,
                    });
                    assert(events[k] is Unsubscribed);
                }
            }
        },
        RequestValue::GetCarriers => {
            let events = handle_spec(s, req).1;
            assert forall|channel: Seq<char>, payload: Seq<u8>| !delivered_to(events, id, channel, payload) by {
                if delivered_to(events, id, channel, payload) {
                    let k = choose|k: int| 0 <= k < events.len() && #[trigger] events[k] == (EventValue::MessageReceived {
                        sub_id: id,
                        sender: loopback_sender(),
                        channel,
                        payload,
                    });
                    assert(events[k] is Carriers);
                }
            }
        },
        RequestValue::Send { recipient, channel: ch, payload: p } => {
            assert forall|channel: Seq<char>, payload: Seq<u8>| !delivered_to(handle_spec(s, req).1, id, channel, payload) by {
                lemma_deliveries(s.subs, channel, payload, id);
                if s.loopback {
                    lemma_deliveries(s.subs, ch, p, id);
                    if listens(s.subs, id, ch) {
                        let i = choose|i: int| 0 <= i < s.subs.len() && #[trigger] s.subs[i].0 == id && channel_matches(s.subs[i].1, ch);
                    }
                    if delivered_to(handle_spec(s, req).1, id, channel, payload) {
                        let events = handle_spec(s, req).1;
                        let k = choose|k: int| 0 <= k < events.len() && #[trigger] events[k] == (EventValue::MessageReceived {
                            sub_id: id,
                            sender: loopback_sender(),
                            channel,
                            payload,
                        });
                        lemma_delivery_channel(s.subs, ch, p, k);
                    }
                }
            }
        },
    }
}

proof fn lemma_delivery_channel(subs: Seq<(u64, Seq<char>)>, channel: Seq<char>, payload: Seq<u8>, k: int)
    requires
        0 <= k < deliveries(subs, channel, payload).len(),
    ensures
        deliveries(subs, channel, payload)[k] matches EventValue::MessageReceived { sub_id, channel: c, payload: p, .. }
            && c == channel && p == payload && listens(subs, sub_id, channel),
    decreases subs.len(),
{
    let rest = subs.drop_last();
    let dr = deliveries(rest, channel, payload);
    if k < dr.len() {
        lemma_delivery_channel(rest, channel, payload, k);
        let id = dr[k]->MessageReceived_sub_id;
        let i = choose|i: int| 0 <= i < rest.len() && #[trigger] rest[i].0 == id && channel_matches(rest[i].1, channel);
        assert(subs[i] == rest[i]);
    } else {
        assert(subs[subs.len() - 1].0 == subs.last().0);
    }
}

} // verus!
