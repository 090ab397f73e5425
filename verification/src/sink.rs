//! Sinks that take items under backpressure: a sink made of a function, a
//! sink shared by many producers, and a queue that keeps one pending entry
//! for each key.

use std::collections::VecDeque;
use std::marker::PhantomData;
use std::sync::Arc;
use vstd::prelude::*;
use vstd::rwlock::{RwLock, RwLockPredicate};
use vstd::std_specs::cmp::PartialEqSpec;

verus! {

/// What a sink says to an offer.
#[derive(Debug, PartialEq, Eq)]
pub enum AsyncSink<T> {
    /// The item was taken.
    Ready,
    /// The sink cannot take the item now and hands it back.
    NotReady(T),
}

/// Whether something is done.
#[derive(Debug, PartialEq, Eq)]
pub enum Async<T> {
    /// It is done, with this value.
    Ready(T),
    /// It is not done yet and has to be asked again.
    NotReady,
}

/// What comes of an offer: the sink's answer, or its error.
pub type StartSend<T, E> = Result<AsyncSink<T>, E>;

/// What comes of driving a sink: whether it is done, or its error.
pub type Poll<T, E> = Result<Async<T>, E>;

/// Something that takes items one by one and may refuse one for now.
pub trait Sink {
    type SinkItem;

    type SinkError;

    /// What holds of the sink between two calls.
    open spec fn inv(&self) -> bool {
        true
    }

    /// Offers `item`. A sink that is not ready hands the item back.
    fn start_send(&mut self, item: Self::SinkItem) -> (r: StartSend<
        Self::SinkItem,
        Self::SinkError,
    >)
        requires
            old(self).inv(),
        ensures
            final(self).inv(),
            r matches Ok(AsyncSink::NotReady(back)) ==> back == item,
    ;

    /// Drives what was offered towards its destination.
    fn poll_complete(&mut self) -> (r: Poll<(), Self::SinkError>)
        requires
            old(self).inv(),
        ensures
            final(self).inv(),
    ;

    /// Flushes and closes the sink. Unless a sink says otherwise, closing is
    /// flushing.
    fn close(&mut self) -> (r: Poll<(), Self::SinkError>)
        requires
            old(self).inv(),
        ensures
            final(self).inv(),
        default_ensures
            exists|flushed: &mut Self|
                {
                    &&& &*flushed == &*old(self)
                    &&& &*final(flushed) == &*final(self)
                    &&& #[trigger] call_ensures(Self::poll_complete, (flushed,), r)
                },
    {
        self.poll_complete()
    }
}

/// A sink made of a function that is offered each item.
pub struct SinkFn<F, I> {
    f: F,
    _marker: PhantomData<I>,
}

/// Makes a sink of `f`. Like every sink, `f` hands back the item that it
/// does not take.
pub fn sink_fn<F, I, E>(f: F) -> (sink: SinkFn<F, I>) where F: FnMut(I) -> StartSend<I, E>
    requires
        forall|item: I| call_requires(f, (item,)),
        forall|item: I, r: StartSend<I, E>| #[trigger]
            call_ensures(f, (item,), r) ==> (r matches Ok(AsyncSink::NotReady(back)) ==> back
                == item),
    ensures
        sink.inv(),
        sink.function() == f,
{
    SinkFn { f, _marker: PhantomData }
}

impl<F, I> SinkFn<F, I> {
    /// The function that the sink is made of.
    pub closed spec fn function(&self) -> F {
        self.f
    }
}

impl<F, I, E> Sink for SinkFn<F, I> where F: FnMut(I) -> StartSend<I, E> {
    type SinkItem = I;

    type SinkError = E;

    closed spec fn inv(&self) -> bool {
        &&& forall|item: I| call_requires(self.f, (item,))
        &&& forall|item: I, r: StartSend<I, E>| #[trigger]
            call_ensures(self.f, (item,), r) ==> (r matches Ok(AsyncSink::NotReady(back)) ==> back
                == item)
    }

    /// Hands `item` to the function and returns what it says.
    fn start_send(&mut self, item: I) -> (r: StartSend<I, E>)
        ensures
            call_ensures(old(self).function(), (item,), r),
            final(self).function() == old(self).function(),
    {
        (self.f)(item)
    }

    /// Nothing is buffered, so there is never anything left to flush.
    fn poll_complete(&mut self) -> (r: Poll<(), E>)
        ensures
            r matches Ok(Async::Ready(_)),
            final(self).function() == old(self).function(),
    {
        Ok(Async::Ready(()))
    }

    /// Closing is flushing, and there is never anything to flush.
    fn close(&mut self) -> (r: Poll<(), E>)
        ensures
            r matches Ok(Async::Ready(_)),
            final(self).function() == old(self).function(),
    {
        self.poll_complete()
    }
}

/// Offers `item` to `sink`. Gives the sink's answer and, for contracts, the
/// sink as the offer left it.
pub fn offer<S: Sink>(sink: &mut S, item: S::SinkItem) -> (out: (
    StartSend<S::SinkItem, S::SinkError>,
    Ghost<S>,
))
    requires
        old(sink).inv(),
    ensures
        final(sink).inv(),
        out.1@ == *final(sink),
        out.0 matches Ok(AsyncSink::NotReady(back)) ==> back == item,
        exists|inner: &mut S|
            *inner == *old(sink) && *final(inner) == *final(sink) && #[trigger] call_ensures(
                S::start_send,
                (inner, item),
                out.0,
            ),
{
    let r = sink.start_send(item);
    let out = (r, Ghost(*sink));
    assert(out.0 == r);
    out
}

/// Flushes `sink`. Gives the sink's answer and, for contracts, the sink as
/// the flush left it.
pub fn flush<S: Sink>(sink: &mut S) -> (out: (Poll<(), S::SinkError>, Ghost<S>))
    requires
        old(sink).inv(),
    ensures
        final(sink).inv(),
        out.1@ == *final(sink),
        exists|inner: &mut S|
            *inner == *old(sink) && *final(inner) == *final(sink) && #[trigger] call_ensures(
                S::poll_complete,
                (inner,),
                out.0,
            ),
{
    let r = sink.poll_complete();
    let out = (r, Ghost(*sink));
    assert(out.0 == r);
    out
}

/// Closes `sink`. Gives the sink's answer and, for contracts, the sink as
/// the close left it.
pub fn shut<S: Sink>(sink: &mut S) -> (out: (Poll<(), S::SinkError>, Ghost<S>))
    requires
        old(sink).inv(),
    ensures
        final(sink).inv(),
        out.1@ == *final(sink),
        exists|inner: &mut S|
            *inner == *old(sink) && *final(inner) == *final(sink) && #[trigger] call_ensures(
                S::close,
                (inner,),
                out.0,
            ),
{
    let r = sink.close();
    let out = (r, Ghost(*sink));
    assert(out.0 == r);
    out
}

/// An offer of `item` to the sink `from` was answered with `answer` and left
/// the sink `to`: that is what `offer` gave for them.
pub open spec fn offers<S: Sink>(
    from: S,
    item: S::SinkItem,
    answer: StartSend<S::SinkItem, S::SinkError>,
    to: S,
) -> bool {
    exists|inner: &mut S|
        *inner == from && #[trigger] call_ensures(offer::<S>, (inner, item), (answer, Ghost(to)))
}

/// A flush of the sink `from` was answered with `answer` and left the sink
/// `to`: that is what `flush` gave for it.
pub open spec fn flushes<S: Sink>(from: S, answer: Poll<(), S::SinkError>, to: S) -> bool {
    exists|inner: &mut S|
        *inner == from && #[trigger] call_ensures(flush::<S>, (inner,), (answer, Ghost(to)))
}

/// A close of the sink `from` was answered with `answer` and left the sink
/// `to`: that is what `shut` gave for it.
pub open spec fn shuts<S: Sink>(from: S, answer: Poll<(), S::SinkError>, to: S) -> bool {
    exists|inner: &mut S|
        *inner == from && #[trigger] call_ensures(shut::<S>, (inner,), (answer, Ghost(to)))
}

/// One operation of a sink, an offer, a flush or a close, makes `to` of
/// `from`.
pub open spec fn moves<S: Sink>(from: S, to: S) -> bool {
    ||| exists|item: S::SinkItem, answer: StartSend<S::SinkItem, S::SinkError>| #[trigger]
        offers(from, item, answer, to)
    ||| exists|answer: Poll<(), S::SinkError>| #[trigger] flushes(from, answer, to)
    ||| exists|answer: Poll<(), S::SinkError>| #[trigger] shuts(from, answer, to)
}

/// The sink `from` was offered the items `items`, one after the other, took
/// each of them, and is `to` after the last.
pub open spec fn took<S: Sink>(from: S, items: Seq<S::SinkItem>, to: S) -> bool
    decreases items.len(),
{
    if items.len() == 0 {
        from == to
    } else {
        exists|mid: S| #[trigger]
            offers(from, items[0], Ok(AsyncSink::Ready), mid) && took(
                mid,
                items.drop_first(),
                to,
            )
    }
}

/// A sink that took some items and then takes one more took them all.
pub proof fn lemma_took_more<S: Sink>(
    from: S,
    items: Seq<S::SinkItem>,
    mid: S,
    item: S::SinkItem,
    to: S,
)
    requires
        took(from, items, mid),
        offers(mid, item, Ok(AsyncSink::Ready), to),
    ensures
        took(from, items.push(item), to),
    decreases items.len(),
{
    let all = items.push(item);
    if items.len() == 0 {
        assert(all[0] == item);
        assert(all.drop_first().len() == 0);
        assert(took(to, all.drop_first(), to));
    } else {
        let next = choose|next: S| #[trigger]
            offers(from, items[0], Ok(AsyncSink::Ready), next) && took(
                next,
                items.drop_first(),
                mid,
            );
        lemma_took_more(next, items.drop_first(), mid, item, to);
        assert(all[0] == items[0]);
        assert(all.drop_first() == items.drop_first().push(item));
    }
}

/// `count` operations, one after the other, make `to` of `from`.
pub open spec fn reaches<S: Sink>(from: S, to: S, count: nat) -> bool
    decreases count,
{
    if count == 0 {
        from == to
    } else {
        exists|mid: S| reaches(from, mid, (count - 1) as nat) && #[trigger] moves(mid, to)
    }
}

/// `to` is what operations of the sink have made of `from`: nothing else has
/// touched it.
pub open spec fn descends<S: Sink>(from: S, to: S) -> bool {
    exists|count: nat| reaches(from, to, count)
}

/// A sink descends from itself.
pub proof fn lemma_descends_from_itself<S: Sink>(sink: S)
    ensures
        descends(sink, sink),
{
    assert(reaches(sink, sink, 0));
}

/// One more operation leaves a sink a descendant of where it came from.
pub proof fn lemma_descends_on<S: Sink>(from: S, mid: S, to: S)
    requires
        descends(from, mid),
        moves(mid, to),
    ensures
        descends(from, to),
{
    let count = choose|count: nat| reaches(from, mid, count);
    assert(reaches(from, to, count + 1));
}

/// What the lock of a shared sink guards: a sink between two calls that
/// descends from the sink that the lock was made for.
pub ghost struct Guarded<S> {
    pub origin: S,
}

impl<S: Sink> RwLockPredicate<S> for Guarded<S> {
    open spec fn inv(self, sink: S) -> bool {
        sink.inv() && descends(self.origin, sink)
    }
}

/// A sink behind a lock, shared by all the clones of one handle. Each
/// operation holds the lock from before its first step on the inner sink
/// until after its last.
#[verifier::reject_recursive_types(S)]
pub struct SharedSink<S: Sink> {
    inner: Arc<RwLock<S, Guarded<S>>>,
}

impl<S: Sink> SharedSink<S> {
    /// The sink that the handle was made for. The sink behind the lock
    /// descends from it.
    pub closed spec fn origin(&self) -> S {
        self.inner.pred().origin
    }

    /// Puts `sink` behind a lock.
    pub fn new(sink: S) -> (shared: SharedSink<S>)
        requires
            sink.inv(),
        ensures
            shared.inv(),
            shared.origin() == sink,
    {
        proof {
            lemma_descends_from_itself(sink);
        }
        SharedSink { inner: Arc::new(RwLock::new(sink, Ghost(Guarded { origin: sink }))) }
    }
}

impl<S: Sink> Clone for SharedSink<S> {
    /// Another handle to the same sink.
    fn clone(&self) -> (other: Self)
        ensures
            other.inv(),
            other.origin() == self.origin(),
    {
        SharedSink { inner: self.inner.clone() }
    }
}

impl<S: Sink> Sink for SharedSink<S> {
    type SinkItem = S::SinkItem;

    type SinkError = S::SinkError;

    /// Offers `item` to the inner sink, under the lock, and returns what the
    /// inner sink says.
    fn start_send(&mut self, item: S::SinkItem) -> (r: StartSend<S::SinkItem, S::SinkError>)
        ensures
            final(self).origin() == old(self).origin(),
            exists|inner: &mut S|
                {
                    &&& descends(old(self).origin(), *inner)
                    &&& inner.inv()
                    &&& #[trigger] call_ensures(S::start_send, (inner, item), r)
                },
    {
        let (mut sink, lock) = self.inner.acquire_write();
        let ghost before = sink;
        let out = offer(&mut sink, item);
        proof {
            assert(offers(before, item, out.0, sink));
            lemma_descends_on(self.origin(), before, sink);
        }
        lock.release_write(sink);
        out.0
    }

    /// Flushes the inner sink, under the lock, and returns what the inner
    /// sink says.
    fn poll_complete(&mut self) -> (r: Poll<(), S::SinkError>)
        ensures
            final(self).origin() == old(self).origin(),
            exists|inner: &mut S|
                {
                    &&& descends(old(self).origin(), *inner)
                    &&& inner.inv()
                    &&& #[trigger] call_ensures(S::poll_complete, (inner,), r)
                },
    {
        let (mut sink, lock) = self.inner.acquire_write();
        let ghost before = sink;
        let out = flush(&mut sink);
        proof {
            assert(flushes(before, out.0, sink));
            lemma_descends_on(self.origin(), before, sink);
        }
        lock.release_write(sink);
        out.0
    }

    /// Closes the inner sink, under the lock, and returns what the inner
    /// sink says.
    fn close(&mut self) -> (r: Poll<(), S::SinkError>)
        ensures
            final(self).origin() == old(self).origin(),
            exists|inner: &mut S|
                {
                    &&& descends(old(self).origin(), *inner)
                    &&& inner.inv()
                    &&& #[trigger] call_ensures(S::close, (inner,), r)
                },
    {
        let (mut sink, lock) = self.inner.acquire_write();
        let ghost before = sink;
        let out = shut(&mut sink);
        proof {
            assert(shuts(before, out.0, sink));
            lemma_descends_on(self.origin(), before, sink);
        }
        lock.release_write(sink);
        out.0
    }
}

/// One unit of pending work: the latest `value` for a `key`.
pub struct Entry<K, V> {
    pub key: K,
    pub value: V,
}

/// The keys of a queue, oldest first.
pub open spec fn keys<K, V>(q: Seq<Entry<K, V>>) -> Seq<K> {
    Seq::new(q.len(), |i: int| q[i].key)
}

/// The index of the oldest entry of `q` whose key equals `key`, or the
/// length of `q` where no entry has that key.
pub open spec fn key_position<K: PartialEq, V>(q: Seq<Entry<K, V>>, key: K) -> int
    decreases q.len(),
{
    if q.len() == 0 || q[0].key.eq_spec(&key) {
        0
    } else {
        1 + key_position(q.drop_first(), key)
    }
}

/// No key stands twice in `q`.
pub open spec fn distinct_keys<K: PartialEq, V>(q: Seq<Entry<K, V>>) -> bool {
    forall|i: int, j: int|
        0 <= i < j < q.len() ==> !(#[trigger] q[i]).key.eq_spec(&(#[trigger] q[j]).key)
}

/// The queue `q` after `item` was taken in: where an entry has the key of
/// `item`, that entry stays in its place with the value of `item`; where
/// none has, `item` is the newest entry.
pub open spec fn coalesce<K: PartialEq, V>(q: Seq<Entry<K, V>>, item: Entry<K, V>) -> Seq<
    Entry<K, V>,
> {
    let at = key_position(q, item.key);
    if at < q.len() {
        q.update(at, Entry { key: q[at].key, value: item.value })
    } else {
        q.push(item)
    }
}

/// `key_position` is the least index whose entry has the key.
pub proof fn lemma_key_position<K: PartialEq, V>(q: Seq<Entry<K, V>>, key: K)
    ensures
        0 <= key_position(q, key) <= q.len(),
        forall|i: int| 0 <= i < key_position(q, key) ==> !(#[trigger] q[i]).key.eq_spec(&key),
        key_position(q, key) < q.len() ==> q[key_position(q, key)].key.eq_spec(&key),
    decreases q.len(),
{
    if !(q.len() == 0 || q[0].key.eq_spec(&key)) {
        let t = q.drop_first();
        lemma_key_position(t, key);
        assert forall|i: int| 0 <= i < key_position(q, key) implies !(#[trigger] q[i]).key.eq_spec(
            &key,
        ) by {
            if i > 0 {
                assert(q[i] == t[i - 1]);
            }
        }
    }
}

/// The least index whose entry has the key, or the length where none has,
/// is what `key_position` gives.
pub proof fn lemma_key_position_is<K: PartialEq, V>(q: Seq<Entry<K, V>>, key: K, at: int)
    requires
        0 <= at <= q.len(),
        forall|i: int| 0 <= i < at ==> !(#[trigger] q[i]).key.eq_spec(&key),
        at < q.len() ==> q[at].key.eq_spec(&key),
    ensures
        key_position(q, key) == at,
    decreases q.len(),
{
    if at > 0 {
        let t = q.drop_first();
        assert(!q[0].key.eq_spec(&key));
        assert forall|i: int| 0 <= i < at - 1 implies !(#[trigger] t[i]).key.eq_spec(&key) by {
            assert(t[i] == q[i + 1]);
        }
        lemma_key_position_is(t, key, at - 1);
    }
}

/// Taking an item in keeps every key where it was and keeps the keys
/// distinct: either the keys are those of before, or the key of the item
/// was new and now stands last.
pub proof fn lemma_coalesce<K: PartialEq, V>(q: Seq<Entry<K, V>>, item: Entry<K, V>)
    requires
        distinct_keys(q),
    ensures
        distinct_keys(coalesce(q, item)),
        key_position(q, item.key) < q.len() ==> keys(coalesce(q, item)) == keys(q),
        key_position(q, item.key) == q.len() ==> keys(coalesce(q, item)) == keys(q).push(item.key),
        forall|i: int|
            0 <= i < q.len() && i != key_position(q, item.key) ==> #[trigger] coalesce(q, item)[i]
                == q[i],
        coalesce(q, item)[key_position(q, item.key)].value == item.value,
{
    lemma_key_position(q, item.key);
    let at = key_position(q, item.key);
    let after = coalesce(q, item);
    assert forall|i: int, j: int| 0 <= i < j < after.len() implies !(#[trigger] after[i])
        .key.eq_spec(&(#[trigger] after[j]).key) by {
        if j < q.len() {
            assert(after[i].key == q[i].key);
            assert(after[j].key == q[j].key);
        } else {
            assert(after[i] == q[i]);
        }
    }
    if at < q.len() {
        assert(keys(after) =~= keys(q));
    } else {
        assert(keys(after) =~= keys(q).push(item.key));
    }
}

/// A queue before a sink that keeps only the latest entry for each key.
/// What the sink cannot take at once waits here, oldest first.
pub struct UniqueQueue<S, K, V> {
    sink: S,
    queue: VecDeque<Entry<K, V>>,
}

impl<S, K, V> UniqueQueue<S, K, V> {
    /// The entries that wait for the inner sink, oldest first.
    pub closed spec fn pending(&self) -> Seq<Entry<K, V>> {
        self.queue@
    }

    /// The sink behind the queue.
    pub closed spec fn inner(&self) -> S {
        self.sink
    }

    /// The number of entries that wait.
    pub fn len(&self) -> (n: usize)
        ensures
            n == self.pending().len(),
    {
        self.queue.len()
    }
}

impl<S, K, V> UniqueQueue<S, K, V> where S: Sink<SinkItem = Entry<K, V>>, K: PartialEq {
    /// An empty queue before `sink`.
    pub fn new(sink: S) -> (queue: Self)
        requires
            sink.inv(),
        ensures
            queue.pending() == Seq::<Entry<K, V>>::empty(),
            queue.inner() == sink,
            queue.inv(),
    {
        UniqueQueue { sink, queue: VecDeque::new() }
    }

    /// Settles an offer that the inner sink has answered with `outcome`:
    /// an item that came back is taken into the queue, in the place of the
    /// entry with its key where there is one, and last where there is none.
    /// Whatever the inner sink said, the item counts as accepted.
    pub fn settle(&mut self, outcome: AsyncSink<Entry<K, V>>) -> (accepted: AsyncSink<Entry<K, V>>)
        ensures
            accepted is Ready,
            final(self).inner() == old(self).inner(),
            outcome is Ready ==> final(self).pending() == old(self).pending(),
            K::obeys_eq_spec() ==> (outcome matches AsyncSink::NotReady(item) ==> final(self)
                .pending() == coalesce(old(self).pending(), item)),
            K::obeys_eq_spec() && distinct_keys(old(self).pending()) ==> distinct_keys(
                final(self).pending(),
            ),
            old(self).inv() ==> final(self).inv(),
    {
        match outcome {
            AsyncSink::Ready => {},
            AsyncSink::NotReady(item) => {
                proof {
                    if distinct_keys(self.queue@) {
                        lemma_coalesce(self.queue@, item);
                    }
                }
                let at = self.position(&item.key);
                if at < self.queue.len() {
                    let found = self.queue.remove(at);
                    let Entry { key, value: _ } = found.unwrap();
                    self.queue.insert(at, Entry { key, value: item.value });
                    assert(self.queue@ == old(self).queue@.update(
                        at as int,
                        Entry { key: old(self).queue@[at as int].key, value: item.value },
                    ));
                } else {
                    self.queue.push_back(item);
                }
            },
        }
        AsyncSink::Ready
    }
}

impl<S, K: PartialEq, V> UniqueQueue<S, K, V> {
    /// Finds the oldest entry with the key `key`; gives the number of
    /// entries where there is none.
    fn position(&self, key: &K) -> (at: usize)
        ensures
            at <= self.pending().len(),
            K::obeys_eq_spec() ==> at == key_position(self.pending(), *key),
    {
        let mut at: usize = 0;
        while at < self.queue.len() && !(self.queue[at].key == *key)
            invariant
                at <= self.queue@.len(),
                K::obeys_eq_spec() ==> forall|i: int|
                    0 <= i < at ==> !(#[trigger] self.queue@[i]).key.eq_spec(key),
            decreases self.queue@.len() - at,
        {
            at += 1;
        }
        proof {
            if K::obeys_eq_spec() {
                lemma_key_position_is(self.queue@, *key, at as int);
            }
        }
        at
    }
}

impl<S, K, V> UniqueQueue<S, K, V> {
    /// Settles the offer of the oldest entry, which was taken out of the
    /// queue and which the inner sink has answered with `outcome`: an entry
    /// that came back is the oldest again. Tells whether the next entry can
    /// be offered.
    pub fn put_back(&mut self, outcome: AsyncSink<Entry<K, V>>) -> (more: bool)
        ensures
            final(self).inner() == old(self).inner(),
            match outcome {
                AsyncSink::Ready => more && final(self).pending() == old(self).pending(),
                AsyncSink::NotReady(item) => !more && final(self).pending() == seq![item] + old(
                    self,
                ).pending(),
            },
    {
        match outcome {
            AsyncSink::Ready => true,
            AsyncSink::NotReady(item) => {
                self.queue.push_front(item);
                false
            },
        }
    }
}

/// What an offer to the queue comes to once the inner sink has answered
/// with `answer`: an error is passed on and nothing waits that did not
/// wait before; an item that was taken changes nothing; an item that came
/// back waits in the queue, and the caller is told that it was accepted.
pub open spec fn offered<K: PartialEq, V, E>(
    before: Seq<Entry<K, V>>,
    item: Entry<K, V>,
    answer: StartSend<Entry<K, V>, E>,
    after: Seq<Entry<K, V>>,
    r: StartSend<Entry<K, V>, E>,
) -> bool {
    let accepted = Ok::<AsyncSink<Entry<K, V>>, E>(AsyncSink::Ready);
    match answer {
        Err(e) => r == Err::<AsyncSink<Entry<K, V>>, E>(e) && after == before,
        Ok(AsyncSink::Ready) => r == accepted && after == before,
        Ok(AsyncSink::NotReady(_)) => {
            &&& r == accepted
            &&& K::obeys_eq_spec() ==> after == coalesce(before, item)
        },
    }
}

/// How a flush of the queue ends once the inner sink has taken the `sent`
/// oldest of the entries `before` and is `mid`. Where none is left, the
/// inner sink is flushed and its answer is the result. Where one is left,
/// it is offered: if it comes back, it waits on as the oldest and the
/// result is "not ready"; if the offer fails, the entry is gone and the
/// error is the result.
pub open spec fn stops<S, K, V>(
    before: Seq<Entry<K, V>>,
    sent: int,
    mid: S,
    r: Poll<(), S::SinkError>,
    after: Seq<Entry<K, V>>,
    to: S,
) -> bool where S: Sink<SinkItem = Entry<K, V>> {
    if sent == before.len() {
        after == Seq::<Entry<K, V>>::empty() && flushes(mid, r, to)
    } else {
        ||| {
            &&& r == Ok::<Async<()>, S::SinkError>(Async::NotReady)
            &&& after == before.skip(sent)
            &&& offers(mid, before[sent], Ok(AsyncSink::NotReady(before[sent])), to)
        }
        ||| exists|e: S::SinkError|
            {
                &&& r == Err::<Async<()>, S::SinkError>(e)
                &&& after == before.skip(sent + 1)
                &&& #[trigger] offers(mid, before[sent], Err(e), to)
            }
    }
}

/// A flush of the queue that holds `before` before the sink `from`: the
/// sink takes some of the oldest entries, each offered once and in their
/// order, and the flush ends as `stops` says, with the result `r`, the
/// entries `after` and the sink `to`.
pub open spec fn drains<S, K, V>(
    before: Seq<Entry<K, V>>,
    from: S,
    r: Poll<(), S::SinkError>,
    after: Seq<Entry<K, V>>,
    to: S,
) -> bool where S: Sink<SinkItem = Entry<K, V>> {
    exists|sent: int, mid: S|
        {
            &&& 0 <= sent <= before.len()
            &&& #[trigger] took(from, before.take(sent), mid)
            &&& stops(before, sent, mid, r, after, to)
        }
}

/// A close of the queue that holds `before` before the sink `from`: the
/// queue is flushed first. A flush that is not done, or fails, is the
/// result, and the inner sink is not closed; after a flush that is done,
/// the inner sink is closed and its answer is the result.
pub open spec fn closes<S, K, V>(
    before: Seq<Entry<K, V>>,
    from: S,
    r: Poll<(), S::SinkError>,
    after: Seq<Entry<K, V>>,
    to: S,
) -> bool where S: Sink<SinkItem = Entry<K, V>> {
    exists|flushed: Poll<(), S::SinkError>, mid: S|
        {
            &&& #[trigger] drains(before, from, flushed, after, mid)
            &&& match flushed {
                Ok(Async::Ready(_)) => shuts(mid, r, to),
                _ => r == flushed && to == mid,
            }
        }
}

impl<S, K, V> Sink for UniqueQueue<S, K, V> where S: Sink<SinkItem = Entry<K, V>>, K: PartialEq {
    type SinkItem = Entry<K, V>;

    type SinkError = S::SinkError;

    /// The inner sink is in order and, where equal keys compare equal, no
    /// key waits twice.
    open spec fn inv(&self) -> bool {
        &&& self.inner().inv()
        &&& K::obeys_eq_spec() ==> distinct_keys(self.pending())
    }

    /// Offers `item` to the inner sink. An item that the inner sink hands
    /// back waits in the queue; the caller is told that it was accepted.
    fn start_send(&mut self, item: Entry<K, V>) -> (r: StartSend<Entry<K, V>, S::SinkError>)
        ensures
            exists|inner: &mut S, answer: StartSend<Entry<K, V>, S::SinkError>|
                {
                    &&& *inner == old(self).inner()
                    &&& *final(inner) == final(self).inner()
                    &&& #[trigger] call_ensures(S::start_send, (inner, item), answer)
                    &&& offered(old(self).pending(), item, answer, final(self).pending(), r)
                },
    {
        match self.sink.start_send(item) {
            Err(e) => Err(e),
            Ok(outcome) => Ok(self.settle(outcome)),
        }
    }

    /// Offers the waiting entries to the inner sink, oldest first, until one
    /// comes back, and flushes the inner sink once none is left.
    fn poll_complete(&mut self) -> (r: Poll<(), S::SinkError>)
        ensures
            drains(
                old(self).pending(),
                old(self).inner(),
                r,
                final(self).pending(),
                final(self).inner(),
            ),
            r matches Ok(Async::Ready(_)) ==> final(self).pending().len() == 0,
    {
        let ghost before = self.queue@;
        let ghost from = self.sink;
        let ghost mut sent: int = 0;
        assert(before.skip(0) == before);
        assert(before.take(0).len() == 0);
        while self.queue.len() > 0
            invariant
                self.sink.inv(),
                before == old(self).queue@,
                from == old(self).sink,
                K::obeys_eq_spec() ==> distinct_keys(before),
                0 <= sent <= before.len(),
                self.queue@ == before.skip(sent),
                took(from, before.take(sent), self.sink),
            decreases self.queue@.len(),
        {
            let ghost mid = self.sink;
            let item = self.queue.pop_front().unwrap();
            let ghost offered = item;
            assert(offered == before[sent]);
            assert(self.queue@ == before.skip(sent + 1));
            let out = offer(&mut self.sink, item);
            assert(offers(mid, offered, out.0, self.sink));
            match out.0 {
                Err(e) => {
                    proof {
                        if K::obeys_eq_spec() {
                            lemma_distinct_skip(before, sent + 1);
                        }
                        assert(stops(before, sent, mid, Err(e), self.pending(), self.inner()));
                        assert(took(from, before.take(sent), mid));
                    }
                    return Err(e);
                },
                Ok(outcome) => {
                    if !self.put_back(outcome) {
                        proof {
                            assert(self.queue@ == before.skip(sent));
                            if K::obeys_eq_spec() {
                                lemma_distinct_skip(before, sent);
                            }
                            assert(stops(
                                before,
                                sent,
                                mid,
                                Ok(Async::NotReady),
                                self.pending(),
                                self.inner(),
                            ));
                            assert(took(from, before.take(sent), mid));
                        }
                        return Ok(Async::NotReady);
                    }
                    proof {
                        lemma_took_more(from, before.take(sent), mid, offered, self.sink);
                        assert(before.take(sent + 1) == before.take(sent).push(offered));
                        sent = sent + 1;
                    }
                },
            }
        }
        let ghost mid = self.sink;
        let out = flush(&mut self.sink);
        proof {
            assert(flushes(mid, out.0, self.sink));
            assert(self.queue@ == Seq::<Entry<K, V>>::empty());
            assert(stops(before, sent, mid, out.0, self.pending(), self.inner()));
            assert(took(from, before.take(sent), mid));
        }
        out.0
    }

    /// Flushes as `poll_complete` does and, once nothing waits and the inner
    /// sink is flushed, closes the inner sink.
    fn close(&mut self) -> (r: Poll<(), S::SinkError>)
        ensures
            closes(
                old(self).pending(),
                old(self).inner(),
                r,
                final(self).pending(),
                final(self).inner(),
            ),
            r matches Ok(Async::Ready(_)) ==> final(self).pending().len() == 0,
    {
        let flushed = self.poll_complete();
        let ghost waiting = self.queue@;
        let ghost mid = self.sink;
        assert(drains(old(self).pending(), old(self).inner(), flushed, waiting, mid));
        match flushed {
            Err(e) => Err(e),
            Ok(Async::NotReady) => Ok(Async::NotReady),
            Ok(Async::Ready(_)) => {
                let out = shut(&mut self.sink);
                assert(shuts(mid, out.0, self.sink));
                out.0
            },
        }
    }
}

/// What is left of a queue with distinct keys has distinct keys.
pub proof fn lemma_distinct_skip<K: PartialEq, V>(q: Seq<Entry<K, V>>, sent: int)
    requires
        distinct_keys(q),
        0 <= sent <= q.len(),
    ensures
        distinct_keys(q.skip(sent)),
{
    let rest = q.skip(sent);
    assert forall|i: int, j: int| 0 <= i < j < rest.len() implies !(#[trigger] rest[i]).key.eq_spec(
        &(#[trigger] rest[j]).key,
    ) by {
        assert(rest[i] == q[i + sent]);
        assert(rest[j] == q[j + sent]);
    }
}

} // verus!
