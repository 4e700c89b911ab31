//! Publishers, subscribers, and the broker that routes a topic to the
//! subscriber registered for it.
//!
//! The broker keeps its subscribers in a table of fixed capacity with double
//! hashing: a topic is tried at its primary slot first, and from there in
//! steps whose size depends on the topic and on the largest prime that does
//! not exceed the capacity. The index wraps around the end of the table.

use crate::error::Error;
use crate::ipc::Communicate;
use crate::math::{largest_prime_up_to, largest_prime_up_to_spec, lemma_largest_prime_up_to};
use crate::msg::{Address, Msg, Topic};
use crate::string::{formatted, sformat};
use crate::ERROR_LEN;
use core::time::Duration;
use vstd::arithmetic::div_mod::{
    lemma_fundamental_div_mod, lemma_fundamental_div_mod_converse, lemma_small_mod,
};
use vstd::prelude::*;
use vstd::string::StringSliceAdditionalSpecFns;
use vstd::utf8::is_ascii_chars_encode_utf8;

verus! {

/// The whole milliseconds in a duration.
pub uninterp spec fn duration_millis(d: Duration) -> u128;

/// `Duration::as_millis` gives the whole milliseconds that the duration
/// holds: a number that depends on the duration alone.
pub assume_specification[ Duration::as_millis ](d: &Duration) -> (ms: u128)
    ensures
        ms == duration_millis(*d),
;

/// The timeout that a channel is given for `timeout`: its milliseconds, cut
/// down to the 32 bits of an `i32`.
pub open spec fn timeout_millis(timeout: Duration) -> i32 {
    duration_millis(timeout) as i32
}

/// The milliseconds of `timeout` as a channel takes them.
pub fn channel_timeout(timeout: Duration) -> (ms: i32)
    ensures
        ms == timeout_millis(timeout),
        duration_millis(timeout) <= i32::MAX ==> ms == duration_millis(timeout),
{
    let millis: u128 = timeout.as_millis();
    #[verifier::truncate]
    (millis as i32)
}

/// The sending end of a channel.
pub struct Publisher<T: Communicate> {
    channel: T,
}

impl<T: Communicate> Publisher<T> {
    /// The channel that the publisher sends on.
    pub closed spec fn channel(&self) -> T {
        self.channel
    }

    pub fn new(channel: T) -> (publisher: Self)
        ensures
            publisher.channel() == channel,
    {
        Publisher { channel: channel }
    }

    /// Hands `msg` to the channel and reports what the channel reports.
    pub fn publish<D: Send>(&self, msg: Msg<D>) -> (res: Result<(), Error>)
        ensures
            call_ensures(T::send::<Msg<D>>, (&self.channel(), msg), res),
    {
        self.channel.send(msg)
    }

    /// Hands `msg` to the channel, to wait no longer than `timeout`, and
    /// reports what the channel reports.
    pub fn try_publish<D: Send>(&self, msg: Msg<D>, timeout: Duration) -> (res: Result<
        (),
        Error,
    >)
        ensures
            call_ensures(
                T::try_send::<Msg<D>>,
                (&self.channel(), msg, timeout_millis(timeout)),
                res,
            ),
    {
        self.channel.try_send(msg, channel_timeout(timeout))
    }
}

/// The receiving end of a channel, with the topic it is registered for.
pub struct Subscriber<T: Communicate> {
    pub topic: Topic,
    pub channel: T,
}

impl<T: Communicate> Subscriber<T> {
    /// A subscriber to `topic` on `channel`. The address names the endpoint
    /// and plays no part in routing.
    pub fn new(channel: T, topic: Topic, address: Address) -> (subscriber: Self)
        ensures
            subscriber.topic == topic,
            subscriber.channel == channel,
    {
        Subscriber { channel: channel, topic: topic }
    }

    /// Takes a message from the channel and reports what the channel
    /// reports.
    pub fn recv<D: Send>(&self) -> (res: Result<Msg<D>, Error>)
        ensures
            call_ensures(T::recv::<Msg<D>>, (&self.channel,), res),
    {
        self.channel.recv::<Msg<D>>()
    }

    /// Takes a message from the channel if one comes within `timeout`, and
    /// reports what the channel reports.
    pub fn try_recv<D: Send>(&self, timeout: Duration) -> (res: Result<Option<Msg<D>>, Error>)
        ensures
            call_ensures(T::try_recv::<Msg<D>>, (&self.channel, timeout_millis(timeout)), res),
    {
        self.channel.try_recv::<Msg<D>>(channel_timeout(timeout))
    }
}

/// The slot at which a topic is tried first.
pub open spec fn primary_index(topic: Topic, cap: int) -> int {
    topic as int % cap
}

/// The step from one try to the next: with `p` the largest prime that does
/// not exceed the capacity, `p - topic mod (p / 2)`.
pub open spec fn step_size(topic: Topic, cap: int) -> int {
    let p = largest_prime_up_to_spec(cap);
    p - topic as int % (p / 2)
}

/// The slot of try `k` for a topic: `k` steps from the primary slot, around
/// the end of the table.
pub open spec fn probe_index(topic: Topic, k: int, cap: int) -> int {
    (primary_index(topic, cap) + k * step_size(topic, cap)) % cap
}

/// `(index + step) mod cap`, for `index < cap` and `step <= cap`.
pub open spec fn advance(index: int, step: int, cap: int) -> int {
    if index + step < cap {
        index + step
    } else {
        index + step - cap
    }
}

/// The first empty slot among the tries `k`, `k + 1`, and so on up to try
/// number `cap` for `topic`; `None` where all of them are taken.
pub open spec fn first_free(topics: Seq<Option<Topic>>, topic: Topic, k: int) -> Option<int>
    decreases topics.len() + 1 - k,
{
    let i = probe_index(topic, k, topics.len() as int);
    if k < 0 || k > topics.len() {
        None
    } else if topics[i] is None {
        Some(i)
    } else {
        first_free(topics, topic, k + 1)
    }
}

/// The slot in which `topic` can be registered: none where `length` has
/// reached the capacity, else the first empty one among its tries.
pub open spec fn free_slot(topics: Seq<Option<Topic>>, length: int, topic: Topic) -> Option<int> {
    if length >= topics.len() {
        None
    } else {
        first_free(topics, topic, 0)
    }
}

/// The first slot that holds `topic` among the tries `k`, `k + 1`, and so
/// on up to try number `cap`; `None` where an empty slot comes first or no
/// try finds the topic.
pub open spec fn first_match(topics: Seq<Option<Topic>>, topic: Topic, k: int) -> Option<int>
    decreases topics.len() + 1 - k,
{
    let i = probe_index(topic, k, topics.len() as int);
    if k < 0 || k > topics.len() {
        None
    } else if topics[i] is None {
        None
    } else if topics[i] == Some(topic) {
        Some(i)
    } else {
        first_match(topics, topic, k + 1)
    }
}

/// The slot that a message for `topic` is routed to.
pub open spec fn route(topics: Seq<Option<Topic>>, topic: Topic) -> Option<int> {
    if topics.len() == 0 {
        None
    } else {
        first_match(topics, topic, 0)
    }
}

/// The number of slots that are taken.
pub open spec fn taken(topics: Seq<Option<Topic>>) -> nat
    decreases topics.len(),
{
    if topics.len() == 0 {
        0
    } else {
        taken(topics.drop_last()) + if topics.last() is Some {
            1nat
        } else {
            0nat
        }
    }
}

/// Slot `i` is taken, it is try `k` of its topic, and the tries before `k`
/// are taken too: the slot is where a search for the topic comes by.
pub open spec fn reached_at(topics: Seq<Option<Topic>>, i: int, k: int) -> bool {
    &&& 0 <= i < topics.len()
    &&& topics[i] is Some
    &&& 0 <= k <= topics.len()
    &&& probe_index(topics[i]->0, k, topics.len() as int) == i
    &&& forall|j: int|
        0 <= j < k ==> (#[trigger] topics[probe_index(topics[i]->0, j, topics.len() as int)])
            is Some
}

/// The invariant of the routing table: `length` counts the taken slots, and
/// every taken slot is where a search for its topic comes by.
pub open spec fn routes_wf(topics: Seq<Option<Topic>>, length: int) -> bool {
    &&& length == taken(topics)
    &&& forall|i: int|
        0 <= i < topics.len() && (#[trigger] topics[i]) is Some ==> exists|k: int|
            reached_at(topics, i, k)
}

/// The text of the error that a full routing table gives.
pub open spec fn full_text() -> Seq<u8> {
    formatted("Table is full".spec_bytes(), ERROR_LEN as nat)
}

/// `e` is the error that a full routing table gives.
pub open spec fn is_full_error(e: Error) -> bool {
    e matches Error::CollectionsError(text) && text@ == full_text()
}

/// The bytes of the message that a full routing table gives.
pub proof fn lemma_full_message()
    ensures
        "Table is full".spec_bytes() =~= seq![
            0x54u8, 0x61, 0x62, 0x6c, 0x65, 0x20, 0x69, 0x73, 0x20, 0x66, 0x75, 0x6c, 0x6c,
        ],
{
    reveal_strlit("Table is full");
    is_ascii_chars_encode_utf8("Table is full"@);
}

/// From a capacity of 2 on, a step is at least 1 and at most the capacity.
pub proof fn lemma_step_bounds(topic: Topic, cap: int)
    requires
        cap >= 2,
    ensures
        2 <= largest_prime_up_to_spec(cap) <= cap,
        1 <= step_size(topic, cap) <= cap,
{
    lemma_largest_prime_up_to(cap);
}

/// Every try is a slot of the table, and try 0 is the primary slot.
pub proof fn lemma_probe_index(topic: Topic, k: int, cap: int)
    requires
        cap > 0,
    ensures
        0 <= probe_index(topic, k, cap) < cap,
        probe_index(topic, 0, cap) == primary_index(topic, cap),
{
    lemma_small_mod(primary_index(topic, cap) as nat, cap as nat);
}

/// The try after try `k` is one step on from it, around the end.
pub proof fn lemma_probe_next(topic: Topic, k: int, cap: int)
    requires
        cap >= 2,
    ensures
        probe_index(topic, k + 1, cap) == advance(
            probe_index(topic, k, cap),
            step_size(topic, cap),
            cap,
        ),
{
    let step = step_size(topic, cap);
    let x = primary_index(topic, cap) + k * step;
    let index = x % cap;
    let q = x / cap;
    lemma_step_bounds(topic, cap);
    lemma_fundamental_div_mod(x, cap);
    assert(primary_index(topic, cap) + (k + 1) * step == x + step) by (nonlinear_arith)
        requires
            x == primary_index(topic, cap) + k * step,
    ;
    if index + step < cap {
        lemma_fundamental_div_mod_converse(x + step, cap, q, index + step);
    } else {
        assert(x + step == (q + 1) * cap + (index + step - cap)) by (nonlinear_arith)
            requires
                x == cap * q + index,
        ;
        lemma_fundamental_div_mod_converse(x + step, cap, q + 1, index + step - cap);
    }
}

/// Taking an empty slot raises the count of taken slots by one.
pub proof fn lemma_taken_update(topics: Seq<Option<Topic>>, i: int, topic: Topic)
    requires
        0 <= i < topics.len(),
        topics[i] is None,
    ensures
        taken(topics.update(i, Some(topic))) == taken(topics) + 1,
    decreases topics.len(),
{
    let after = topics.update(i, Some(topic));
    if i == topics.len() - 1 {
        assert(after.drop_last() =~= topics.drop_last());
    } else {
        lemma_taken_update(topics.drop_last(), i, topic);
        assert(after.drop_last() =~= topics.drop_last().update(i, Some(topic)));
    }
}

/// What `first_free` gives is an empty slot, the slot of a try before which
/// every try from `k` on is taken.
pub proof fn lemma_first_free(topics: Seq<Option<Topic>>, topic: Topic, k: int)
    requires
        0 <= k,
        topics.len() > 0,
    ensures
        (first_free(topics, topic, k) matches Some(i) ==> 0 <= i < topics.len() && topics[i]
            is None && exists|n: int|
            {
                &&& k <= n <= topics.len()
                &&& #[trigger] probe_index(topic, n, topics.len() as int) == i
                &&& forall|j: int|
                    k <= j < n ==> (#[trigger] topics[probe_index(
                        topic,
                        j,
                        topics.len() as int,
                    )]) is Some
            }),
    decreases topics.len() + 1 - k,
{
    let cap = topics.len() as int;
    if k <= cap && topics[probe_index(topic, k, cap)] is Some {
        lemma_first_free(topics, topic, k + 1);
    }
}

/// What `first_match` gives is a slot that holds the topic.
pub proof fn lemma_first_match(topics: Seq<Option<Topic>>, topic: Topic, k: int)
    requires
        0 <= k,
        topics.len() > 0,
    ensures
        first_match(topics, topic, k) matches Some(i) ==> 0 <= i < topics.len() && topics[i]
            == Some(topic),
    decreases topics.len() + 1 - k,
{
    let cap = topics.len() as int;
    if k <= cap {
        let i = probe_index(topic, k, cap);
        if topics[i] is Some && topics[i] != Some(topic) {
            lemma_first_match(topics, topic, k + 1);
        }
    }
}

/// A search that comes by taken slots only, up to a try that holds the
/// topic, finds the topic.
pub proof fn lemma_first_match_finds(topics: Seq<Option<Topic>>, topic: Topic, k: int, n: int)
    requires
        0 <= k <= n <= topics.len(),
        topics.len() > 0,
        topics[probe_index(topic, n, topics.len() as int)] == Some(topic),
        forall|j: int|
            k <= j < n ==> (#[trigger] topics[probe_index(topic, j, topics.len() as int)])
                is Some,
    ensures
        first_match(topics, topic, k) is Some,
    decreases n - k,
{
    if k < n && topics[probe_index(topic, k, topics.len() as int)] != Some(topic) {
        lemma_first_match_finds(topics, topic, k + 1, n);
    }
}

/// In a well-formed table a message is routed to a slot exactly where some
/// slot holds its topic, and to a slot that holds it.
pub proof fn lemma_route(topics: Seq<Option<Topic>>, length: int, topic: Topic)
    requires
        routes_wf(topics, length),
    ensures
        route(topics, topic) matches Some(i) ==> 0 <= i < topics.len() && topics[i] == Some(
            topic,
        ),
        route(topics, topic) is Some <==> exists|i: int|
            0 <= i < topics.len() && topics[i] == Some(topic),
{
    if topics.len() > 0 {
        lemma_first_match(topics, topic, 0);
        if exists|i: int| 0 <= i < topics.len() && topics[i] == Some(topic) {
            let i = choose|i: int| 0 <= i < topics.len() && topics[i] == Some(topic);
            let k = choose|k: int| reached_at(topics, i, k);
            lemma_first_match_finds(topics, topic, 0, k);
        }
    }
}

/// A search for a topic gives the same slot in a table that has every
/// taken slot of another table, where it gives a slot in that other table.
pub proof fn lemma_first_match_kept(
    before: Seq<Option<Topic>>,
    after: Seq<Option<Topic>>,
    topic: Topic,
    k: int,
)
    requires
        0 <= k,
        before.len() == after.len(),
        before.len() > 0,
        forall|s: int| 0 <= s < before.len() && before[s] is Some ==> after[s] == before[s],
        first_match(before, topic, k) is Some,
    ensures
        first_match(after, topic, k) == first_match(before, topic, k),
    decreases before.len() + 1 - k,
{
    let cap = before.len() as int;
    if k <= cap {
        let i = probe_index(topic, k, cap);
        if before[i] != Some(topic) {
            lemma_first_match_kept(before, after, topic, k + 1);
        }
    }
}

/// A topic that no search found is found, once registered, in the slot it
/// was registered in.
pub proof fn lemma_first_match_new(topics: Seq<Option<Topic>>, topic: Topic, k: int)
    requires
        0 <= k,
        topics.len() > 0,
        first_match(topics, topic, k) is None,
        first_free(topics, topic, k) is Some,
    ensures
        first_match(topics.update(first_free(topics, topic, k)->0, Some(topic)), topic, k)
            == first_free(topics, topic, k),
    decreases topics.len() + 1 - k,
{
    let cap = topics.len() as int;
    lemma_first_free(topics, topic, k);
    let s = probe_index(topic, k, cap);
    if topics[s] is Some {
        lemma_first_match_new(topics, topic, k + 1);
    }
}

/// Registering a topic in its free slot keeps the table well-formed and
/// every route: a message for another topic goes where it went, and one
/// for the topic itself goes to the slot that held the topic before, or
/// else to the new slot.
pub proof fn lemma_register(topics: Seq<Option<Topic>>, length: int, topic: Topic)
    requires
        routes_wf(topics, length),
        free_slot(topics, length, topic) is Some,
    ensures
        ({
            let i = free_slot(topics, length, topic)->0;
            let after = topics.update(i, Some(topic));
            &&& 0 <= i < topics.len()
            &&& topics[i] is None
            &&& routes_wf(after, length + 1)
            &&& forall|other: Topic|
                other != topic ==> #[trigger] route(after, other) == route(topics, other)
            &&& route(after, topic) == if route(topics, topic) is Some {
                route(topics, topic)
            } else {
                Some(i)
            }
        }),
{
    let cap = topics.len() as int;
    let i = free_slot(topics, length, topic)->0;
    let after = topics.update(i, Some(topic));
    lemma_first_free(topics, topic, 0);
    lemma_taken_update(topics, i, topic);
    let n = choose|n: int|
        {
            &&& 0 <= n <= cap
            &&& #[trigger] probe_index(topic, n, cap) == i
            &&& forall|j: int|
                0 <= j < n ==> (#[trigger] topics[probe_index(topic, j, cap)]) is Some
        };
    assert forall|a: int| 0 <= a < cap && (#[trigger] after[a]) is Some implies exists|k: int|
        reached_at(after, a, k) by {
        if a == i {
            assert(reached_at(after, i, n));
        } else {
            let k = choose|k: int| reached_at(topics, a, k);
            assert(reached_at(after, a, k));
        }
    }
    assert forall|other: Topic| other != topic implies #[trigger] route(after, other) == route(
        topics,
        other,
    ) by {
        if route(topics, other) is Some {
            lemma_first_match_kept(topics, after, other, 0);
        } else {
            lemma_route(topics, length, other);
            lemma_route(after, length + 1, other);
        }
    }
    if route(topics, topic) is Some {
        lemma_first_match_kept(topics, after, topic, 0);
    } else {
        lemma_first_match_new(topics, topic, 0);
    }
}

/// The table of subscribers with the two channels of the broker. A
/// subscriber stays in the slot it was registered in.
pub struct Broker<T: Communicate, const C: usize> {
    in_pipe: T,
    out_pipe: T,
    subscribers: [Option<Subscriber<T>>; C],
    length: usize,
}

impl<T: Communicate, const C: usize> Broker<T, C> {
    /// The channel on which messages come in.
    pub closed spec fn in_pipe(&self) -> T {
        self.in_pipe
    }

    /// The channel on which messages go out.
    pub closed spec fn out_pipe(&self) -> T {
        self.out_pipe
    }

    /// The `C` slots, in order.
    pub closed spec fn subscribers(&self) -> Seq<Option<Subscriber<T>>> {
        self.subscribers@
    }

    /// The count of registrations.
    pub closed spec fn len(&self) -> nat {
        self.length as nat
    }

    /// The topic in each slot.
    pub open spec fn topics(&self) -> Seq<Option<Topic>> {
        Seq::new(
            self.subscribers().len(),
            |i: int|
                match self.subscribers()[i] {
                    Some(subscriber) => Some(subscriber.topic),
                    None => None,
                },
        )
    }

    /// The invariant of the broker.
    pub open spec fn wf(&self) -> bool {
        self.subscribers().len() == C && routes_wf(self.topics(), self.len() as int)
    }

    /// A broker without subscribers.
    pub fn new(in_pipe: T, out_pipe: T) -> (broker: Self)
        ensures
            broker.wf(),
            broker.in_pipe() == in_pipe,
            broker.out_pipe() == out_pipe,
            broker.len() == 0,
            forall|i: int| 0 <= i < C ==> broker.subscribers()[i] is None,
    {
        let nobody = |i: usize| -> (slot: Option<Subscriber<T>>)
            ensures
                slot is None,
            {
                let slot: Option<Subscriber<T>> = None;
                slot
            };
        let broker = Broker {
            in_pipe: in_pipe,
            out_pipe: out_pipe,
            subscribers: core::array::from_fn(nobody),
            length: 0,
        };
        proof {
            lemma_none_taken(broker.topics());
        }
        broker
    }

    /// The slot in which `topic` can be registered. There is none where the
    /// count of registrations has reached `C`. Else the primary slot
    /// `topic mod C` is tried first, then the slots that lie one step, two
    /// steps and so on up to `C` steps from it, around the end of the
    /// table; the first empty one is the result, and there is none where
    /// all of them are taken.
    pub fn get_index(&self, topic: Topic) -> (res: Option<usize>)
        ensures
            (match free_slot(self.topics(), self.len() as int, topic) {
                Some(i) => res == Some(i as usize),
                None => res is None,
            }),
            res matches Some(i) ==> i < C && self.subscribers()[i as int] is None,
    {
        if self.length >= C {
            return None;
        }
        proof {
            lemma_probe_index(topic, 0, C as int);
            lemma_first_free(self.topics(), topic, 0);
        }
        let mut index: usize = topic as usize % C;
        if self.subscribers[index].is_none() {
            return Some(index);
        }
        let r_mod = largest_prime_up_to(C);
        if r_mod < 2 {
            // The table has one slot, and it is taken.
            proof {
                if C >= 2 {
                    lemma_largest_prime_up_to(C as int);
                }
                assert(C == 1);
                assert(first_free(self.topics(), topic, 2) is None);
            }
            return None;
        }
        let step: usize = r_mod - (topic as usize % (r_mod / 2));
        let mut k: usize = 0;
        while k < C
            invariant
                2 <= C,
                k <= C,
                index < C,
                self.subscribers().len() == C,
                1 <= step <= C,
                step == step_size(topic, C as int),
                index == probe_index(topic, k as int, C as int),
                self.len() < C,
                first_free(self.topics(), topic, 0) == first_free(self.topics(), topic, k + 1),
            decreases C - k,
        {
            proof {
                lemma_probe_next(topic, k as int, C as int);
            }
            index = if step < C - index {
                index + step
            } else {
                index - (C - step)
            };
            k = k + 1;
            if self.subscribers[index].is_none() {
                return Some(index);
            }
        }
        None
    }

    /// Registers a subscriber to `topic` on `channel`, in the slot that
    /// `get_index` gives, and returns the slot. Fails, and changes nothing,
    /// where there is no such slot.
    pub fn register(&mut self, channel: T, topic: Topic, address: Address) -> (res: Result<
        usize,
        Error,
    >)
        requires
            old(self).wf(),
        ensures
            final(self).wf(),
            final(self).in_pipe() == old(self).in_pipe(),
            final(self).out_pipe() == old(self).out_pipe(),
            (match free_slot(old(self).topics(), old(self).len() as int, topic) {
                Some(i) => {
                    &&& res == Ok::<usize, Error>(i as usize)
                    &&& old(self).subscribers()[i] is None
                    &&& final(self).subscribers() == old(self).subscribers().update(
                        i,
                        Some(Subscriber { topic: topic, channel: channel }),
                    )
                    &&& final(self).len() == old(self).len() + 1
                    &&& forall|other: Topic|
                        other != topic ==> #[trigger] route(final(self).topics(), other) == route(
                            old(self).topics(),
                            other,
                        )
                    &&& route(final(self).topics(), topic) == if route(old(self).topics(), topic)
                        is Some {
                        route(old(self).topics(), topic)
                    } else {
                        Some(i)
                    }
                },
                None => {
                    &&& res matches Err(e) && is_full_error(e)
                    &&& final(self).subscribers() == old(self).subscribers()
                    &&& final(self).len() == old(self).len()
                },
            }),
    {
        match self.get_index(topic) {
            Some(index) => {
                proof {
                    lemma_register(self.topics(), self.len() as int, topic);
                    assert(self.topics().update(index as int, Some(topic)) =~= Seq::new(
                        C as nat,
                        |i: int|
                            match self.subscribers().update(
                                index as int,
                                Some(Subscriber { topic: topic, channel: channel }),
                            )[i] {
                                Some(subscriber) => Some(subscriber.topic),
                                None => None,
                            },
                    ));
                }
                self.subscribers[index] = Some(Subscriber::new(channel, topic, address));
                self.length = self.length + 1;
                Ok(index)
            },
            None => {
                proof {
                    lemma_full_message();
                }
                Err(Error::CollectionsError(sformat::<ERROR_LEN>("Table is full")))
            },
        }
    }

    /// The slot that a message for `topic` is routed to: the first one
    /// that holds the topic among the primary slot and the slots one step,
    /// two steps and so on up to `C` steps from it, as long as no empty
    /// slot comes first.
    pub fn find(&self, topic: Topic) -> (res: Option<usize>)
        ensures
            (match route(self.topics(), topic) {
                Some(i) => res == Some(i as usize),
                None => res is None,
            }),
            res matches Some(i) ==> i < C && self.topics()[i as int] == Some(topic),
    {
        if C == 0 {
            return None;
        }
        proof {
            lemma_probe_index(topic, 0, C as int);
            lemma_first_match(self.topics(), topic, 0);
        }
        let mut index: usize = topic as usize % C;
        match &self.subscribers[index] {
            None => {
                return None;
            },
            Some(subscriber) => {
                if subscriber.topic == topic {
                    return Some(index);
                }
            },
        }
        let r_mod = largest_prime_up_to(C);
        if r_mod < 2 {
            // The table has one slot, and another topic has it.
            proof {
                if C >= 2 {
                    lemma_largest_prime_up_to(C as int);
                }
                assert(C == 1);
                assert(first_match(self.topics(), topic, 2) is None);
            }
            return None;
        }
        let step: usize = r_mod - (topic as usize % (r_mod / 2));
        let mut k: usize = 0;
        while k < C
            invariant
                2 <= C,
                k <= C,
                index < C,
                self.subscribers().len() == C,
                1 <= step <= C,
                step == step_size(topic, C as int),
                index == probe_index(topic, k as int, C as int),
                first_match(self.topics(), topic, 0) == first_match(self.topics(), topic, k + 1),
            decreases C - k,
        {
            proof {
                lemma_probe_next(topic, k as int, C as int);
            }
            index = if step < C - index {
                index + step
            } else {
                index - (C - step)
            };
            k = k + 1;
            match &self.subscribers[index] {
                None => {
                    return None;
                },
                Some(subscriber) => {
                    if subscriber.topic == topic {
                        return Some(index);
                    }
                },
            }
        }
        None
    }

    /// Hands `msg` to the channel of the subscriber that its topic is
    /// routed to. `Ok(true)` says that the channel took it, `Ok(false)` that
    /// no subscriber is registered for the topic; an error is the one that
    /// the channel reported.
    pub fn forward<D: Send>(&self, msg: Msg<D>) -> (res: Result<bool, Error>)
        ensures
            (match route(self.topics(), msg.topic) {
                Some(i) => exists|sent: Result<(), Error>|
                    {
                        &&& #[trigger] call_ensures(
                            T::send::<Msg<D>>,
                            (&self.subscribers()[i]->0.channel, msg),
                            sent,
                        )
                        &&& res == forwarded(sent)
                    },
                None => res == Ok::<bool, Error>(false),
            }),
    {
        proof {
            if C > 0 {
                lemma_first_match(self.topics(), msg.topic, 0);
            }
        }
        match self.find(msg.topic) {
            Some(index) => match &self.subscribers[index] {
                Some(subscriber) => match subscriber.channel.send(msg) {
                    Ok(()) => Ok(true),
                    Err(e) => Err(e),
                },
                None => Ok(false),
            },
            None => Ok(false),
        }
    }
}

/// What `forward` makes of what the channel reported.
pub open spec fn forwarded(sent: Result<(), Error>) -> Result<bool, Error> {
    match sent {
        Ok(_) => Ok(true),
        Err(e) => Err(e),
    }
}

/// A table without a taken slot counts none.
pub proof fn lemma_none_taken(topics: Seq<Option<Topic>>)
    requires
        forall|i: int| 0 <= i < topics.len() ==> topics[i] is None,
    ensures
        taken(topics) == 0,
    decreases topics.len(),
{
    if topics.len() > 0 {
        lemma_none_taken(topics.drop_last());
    }
}

} // verus!
