//! The actor: the one owner of the engine, with the queue of the requests
//! that wait for it and the events that wait to be handed to the
//! subscriptions.
//!
//! Sessions put requests at the end of the queue. The actor takes them from
//! its start, one at a time, and carries each out to its end before it takes
//! the next. What a request causes is put behind what waits already, so a
//! subscription hears of the requests in the order in which the actor
//! carried them out.

use crate::error::WorterbuchError;
use crate::server::PStateEventView;
use crate::subscribers::SubscriptionId;
use crate::worterbuch::{
    append_outbox, empty_outbox, DeliveryView, LsDeliveryView, Outbox, OutboxView, WbAnswer,
    WbFunction, WbReply, Worterbuch,
};
use vstd::prelude::*;

verus! {

/// The actor.
pub struct Actor {
    worterbuch: Worterbuch,
    inbox: Vec<WbFunction>,
    capacity: usize,
    pending: Outbox,
}

/// The events among `deliveries` that are for the subscription `id`, in
/// order.
pub open spec fn events_for(deliveries: Seq<DeliveryView>, id: SubscriptionId) -> Seq<
    PStateEventView,
> {
    deliveries.filter(|d: DeliveryView| d.subscription == id).map_values(
        |d: DeliveryView| d.event,
    )
}

/// The lists of child names among `deliveries` that are for the
/// subscription `id`, in order.
pub open spec fn lists_for(deliveries: Seq<LsDeliveryView>, id: SubscriptionId) -> Seq<
    Seq<Seq<char>>,
> {
    deliveries.filter(|d: LsDeliveryView| d.subscription == id).map_values(
        |d: LsDeliveryView| d.children,
    )
}

/// The events for a subscription among deliveries in a row are those among
/// the first, then those among the second.
pub proof fn lemma_events_for(
    first: Seq<DeliveryView>,
    second: Seq<DeliveryView>,
    id: SubscriptionId,
)
    ensures
        events_for(first + second, id) == events_for(first, id) + events_for(second, id),
{
    let pick = |d: DeliveryView| d.subscription == id;
    Seq::filter_distributes_over_add(first, second, pick);
    assert(events_for(first + second, id) =~= events_for(first, id) + events_for(second, id));
}

/// The same for the lists of child names.
pub proof fn lemma_lists_for(
    first: Seq<LsDeliveryView>,
    second: Seq<LsDeliveryView>,
    id: SubscriptionId,
)
    ensures
        lists_for(first + second, id) == lists_for(first, id) + lists_for(second, id),
{
    let pick = |d: LsDeliveryView| d.subscription == id;
    Seq::filter_distributes_over_add(first, second, pick);
    assert(lists_for(first + second, id) =~= lists_for(first, id) + lists_for(second, id));
}

impl Actor {
    /// The engine.
    pub closed spec fn engine(&self) -> Worterbuch {
        self.worterbuch
    }

    /// The requests that wait, the one that is taken next first.
    pub closed spec fn waiting(&self) -> Seq<WbFunction> {
        self.inbox@
    }

    /// How many requests can wait.
    pub closed spec fn capacity(&self) -> usize {
        self.capacity
    }

    /// What waits to be handed to the subscriptions, in order.
    pub closed spec fn undelivered(&self) -> OutboxView {
        self.pending@
    }

    /// The engine is well-formed and no more requests wait than can.
    pub closed spec fn wf(&self) -> bool {
        self.worterbuch.wf() && self.inbox@.len() <= self.capacity
    }

    /// An actor for `worterbuch` with room for `capacity` waiting requests.
    pub fn new(worterbuch: Worterbuch, capacity: usize) -> (actor: Actor)
        requires
            worterbuch.wf(),
        ensures
            actor.wf(),
            actor.engine() == worterbuch,
            actor.capacity() == capacity,
            actor.waiting() == Seq::<WbFunction>::empty(),
            actor.undelivered() == OutboxView::nothing(),
    {
        Actor { worterbuch, inbox: Vec::new(), capacity, pending: empty_outbox() }
    }

    /// How many requests wait.
    pub fn backlog(&self) -> (n: usize)
        ensures
            n == self.waiting().len(),
    {
        self.inbox.len()
    }

    /// Puts a request at the end of the queue. Where the queue is full the
    /// request is handed back and nothing changes.
    pub fn submit(&mut self, function: WbFunction) -> (r: Result<(), WbFunction>)
        requires
            old(self).wf(),
        ensures
            final(self).wf(),
            final(self).engine() == old(self).engine(),
            final(self).capacity() == old(self).capacity(),
            final(self).undelivered() == old(self).undelivered(),
            match r {
                Ok(_) => old(self).waiting().len() < old(self).capacity() && final(self).waiting()
                    == old(self).waiting().push(function),
                Err(back) => old(self).waiting().len() >= old(self).capacity() && back == function
                    && final(self).waiting() == old(self).waiting(),
            },
    {
        if self.inbox.len() < self.capacity {
            self.inbox.push(function);
            Ok(())
        } else {
            Err(function)
        }
    }

    /// What one step of the actor does.
    ///
    /// Where nothing waits, nothing changes. Else the first request of the
    /// queue leaves it and is carried out on the engine as it stands, and
    /// what it causes is put behind what waits to be delivered.
    pub open spec fn stepped(
        before: Actor,
        after: Actor,
        r: Option<Result<WbAnswer, WorterbuchError>>,
    ) -> bool {
        match r {
            None => before.waiting().len() == 0 && after == before,
            Some(answer) => {
                &&& before.waiting().len() > 0
                &&& after.waiting() == before.waiting().drop_first()
                &&& after.capacity() == before.capacity()
                &&& exists|outbox: Outbox| #[trigger]
                    Worterbuch::process_post(
                        &before.engine(),
                        &after.engine(),
                        before.waiting()[0],
                        WbReply { answer, outbox },
                    ) && after.undelivered() == before.undelivered().followed_by(outbox@)
            },
        }
    }

    /// Takes the request that waits first and carries it out; gives its
    /// answer, or nothing where no request waits.
    pub fn step(&mut self) -> (r: Option<Result<WbAnswer, WorterbuchError>>)
        requires
            old(self).wf(),
        ensures
            final(self).wf(),
            Self::stepped(*old(self), *final(self), r),
    {
        if self.inbox.len() == 0 {
            return None;
        }
        let ghost before = *self;
        let function = self.inbox.remove(0);
        assert(self.inbox@ =~= before.inbox@.drop_first());
        let reply = self.worterbuch.process(function);
        let ghost caused = reply.outbox;
        let answer = reply.answer;
        append_outbox(&mut self.pending, reply.outbox);
        proof {
            assert(reply == WbReply { answer, outbox: caused });
            assert(Worterbuch::process_post(
                &before.engine(),
                &self.engine(),
                before.waiting()[0],
                WbReply { answer, outbox: caused },
            ) && self.undelivered() == before.undelivered().followed_by(caused@));
        }
        Some(answer)
    }

    /// Takes what waits to be handed to the subscriptions, in order.
    pub fn deliver(&mut self) -> (outbox: Outbox)
        requires
            old(self).wf(),
        ensures
            final(self).wf(),
            outbox@ == old(self).undelivered(),
            final(self).undelivered() == OutboxView::nothing(),
            final(self).engine() == old(self).engine(),
            final(self).waiting() == old(self).waiting(),
            final(self).capacity() == old(self).capacity(),
    {
        let mut outbox = empty_outbox();
        std::mem::swap(&mut self.pending, &mut outbox);
        outbox
    }
}

/// The actors of `trace` are those of a run: each comes from the one before
/// it by a step that carried out a request, with the answer of the same
/// place in `answers`.
pub open spec fn is_run(trace: Seq<Actor>, answers: Seq<Result<WbAnswer, WorterbuchError>>) -> bool {
    &&& trace.len() == answers.len() + 1
    &&& forall|k: int|
        0 <= k < answers.len() ==> Actor::stepped(trace[k], trace[k + 1], Some(#[trigger] answers[k]))
}

/// First in, first out: in a run, what waits for a subscription at some
/// point still waits for it at every later point, in the same order and
/// before all that the steps between the two caused for it.
pub proof fn law_first_in_first_out(
    trace: Seq<Actor>,
    answers: Seq<Result<WbAnswer, WorterbuchError>>,
    i: int,
    j: int,
    id: SubscriptionId,
)
    requires
        is_run(trace, answers),
        0 <= i <= j < trace.len(),
    ensures
        events_for(trace[i].undelivered().events, id).is_prefix_of(
            events_for(trace[j].undelivered().events, id),
        ),
        lists_for(trace[i].undelivered().ls_events, id).is_prefix_of(
            lists_for(trace[j].undelivered().ls_events, id),
        ),
    decreases j - i,
{
    if i < j {
        law_first_in_first_out(trace, answers, i, j - 1, id);
        let before = trace[j - 1];
        let after = trace[j];
        assert(Actor::stepped(before, after, Some(answers[j - 1])));
        let outbox = choose|outbox: Outbox| #[trigger]
            Worterbuch::process_post(
                &before.engine(),
                &after.engine(),
                before.waiting()[0],
                WbReply { answer: answers[j - 1], outbox },
            ) && after.undelivered() == before.undelivered().followed_by(outbox@);
        lemma_events_for(before.undelivered().events, outbox@.events, id);
        lemma_lists_for(before.undelivered().ls_events, outbox@.ls_events, id);
    }
}

/// One at a time, in the order of the queue: in a run, the step at the
/// place `k` carries out the request that waited at the place `k` when the
/// run began, on the engine as the steps before it left it, and the
/// requests behind it wait on.
pub proof fn law_serial_run(
    trace: Seq<Actor>,
    answers: Seq<Result<WbAnswer, WorterbuchError>>,
    k: int,
) -> (outbox: Outbox)
    requires
        is_run(trace, answers),
        0 <= k < answers.len(),
    ensures
        k < trace[0].waiting().len(),
        trace[k].waiting() == trace[0].waiting().skip(k),
        trace[k + 1].waiting() == trace[0].waiting().skip(k + 1),
        Worterbuch::process_post(
            &trace[k].engine(),
            &trace[k + 1].engine(),
            trace[0].waiting()[k],
            WbReply { answer: answers[k], outbox },
        ),
        trace[k + 1].undelivered() == trace[k].undelivered().followed_by(outbox@),
    decreases k,
{
    let start = trace[0].waiting();
    if k > 0 {
        let earlier = law_serial_run(trace, answers, k - 1);
    } else {
        assert(start.skip(0) =~= start);
    }
    let before = trace[k];
    let after = trace[k + 1];
    assert(Actor::stepped(before, after, Some(answers[k])));
    assert(before.waiting()[0] == start[k]);
    assert(before.waiting().drop_first() =~= start.skip(k + 1));
    choose|outbox: Outbox| #[trigger]
        Worterbuch::process_post(
            &before.engine(),
            &after.engine(),
            before.waiting()[0],
            WbReply { answer: answers[k], outbox },
        ) && after.undelivered() == before.undelivered().followed_by(outbox@)
}

} // verus!
