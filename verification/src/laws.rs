//! What holds of the library as a whole.
//!
//! Each law is stated over the contracts of the functions that it is about,
//! and proved from them.

use crate::codec::KeyValueView;
use crate::key::{pattern_matches, split, SegmentView};
use crate::ls::{distinct_ids, lemma_watchers_distinct, watchers, LsSubscriberView};
use crate::server::PStateEventView;
use crate::session::{elapsed, Millis, Session, KEEPALIVE_INTERVAL};
use crate::store::{child_list, is_child_list, reaches};
use crate::subscribers::{Selection, SubscriberView, SubscriptionId};
use crate::worterbuch::{
    due, lemma_due, ls_events_for, ls_news, value_events, DeliveryView, LsDeliveryView, Outbox,
    Value, ValueMap, WbFunction, WbReply, Worterbuch,
};
use vstd::prelude::*;

verus! {

/// Subscription liveness: a subscriber whose pattern matches the key of a
/// value that is stored, and that is not unique or did not see this value
/// under this key last, is told of the key and the value by exactly one of
/// the events that the call returns.
pub proof fn law_subscription_liveness(
    before: &Worterbuch,
    after: &Worterbuch,
    key: Seq<char>,
    value: Value,
    client_id: Seq<char>,
    outbox: Outbox,
    pattern: Seq<SegmentView>,
    subscriber: SubscriberView,
)
    requires
        before.wf(),
        Worterbuch::set_post(before, after, key, value, client_id, Ok(outbox)),
        pattern_matches(pattern, split(key, '/')),
        before.subs_at(pattern).contains(subscriber),
        !subscriber.unique || !before.seen().contains_pair(
            (subscriber.id, split(key, '/')),
            value@,
        ),
    ensures
        exists|i: int|
            0 <= i < outbox@.events.len() && #[trigger] outbox@.events[i] == (DeliveryView {
                subscription: subscriber.id,
                event: PStateEventView::KeyValuePairs(seq![KeyValueView { key, value: value@ }]),
            }) && forall|j: int|
                0 <= j < outbox@.events.len() && j != i ==> outbox@.events[j].subscription
                    != subscriber.id,
{
    reveal(Worterbuch::set_post);
    let path = split(key, '/');
    let matching = before.matching(path);
    before.lemma_matching(path);
    assert(matching.contains(subscriber));
    lemma_due(matching, before.seen(), path, value@);
    let told = due(matching, before.seen(), path, value@);
    let k = choose|k: int| 0 <= k < matching.len() && matching[k] == subscriber;
    assert(matching[k].id == subscriber.id);
    assert(told.contains(subscriber.id));
    let i = choose|i: int| 0 <= i < told.len() && told[i] == subscriber.id;
    let events = outbox@.events;
    assert(events == value_events(told, key, value@));
    assert(events[i].subscription == subscriber.id);
    assert forall|j: int| 0 <= j < events.len() && j != i implies events[j].subscription
        != subscriber.id by {
        if j < i {
            assert(told[j] != told[i]);
        } else {
            assert(told[i] != told[j]);
        }
    }
}

/// Cleanup: when the engine has been told that a client is gone, no
/// subscriber and no subscription to child names of that client is left.
pub proof fn law_cleanup(before: &Worterbuch, after: &Worterbuch, client_id: u128, reply: WbReply)
    requires
        Worterbuch::process_post(before, after, WbFunction::Disconnected(client_id), reply),
    ensures
        forall|p: Seq<SegmentView>, i: int|
            0 <= i < after.subs_at(p).len() ==> (#[trigger] after.subs_at(p)[i]).id.client_id
                != client_id,
        forall|i: int|
            0 <= i < after.ls_all().len() ==> (#[trigger] after.ls_all()[i]).id.client_id
                != client_id,
{
    let gone = Selection::Client(client_id);
    after.lemma_selected(gone);
    assert forall|p: Seq<SegmentView>, i: int| 0 <= i < after.subs_at(p).len() implies (
    #[trigger] after.subs_at(p)[i]).id.client_id != client_id by {
        if after.subs_at(p)[i].id.client_id == client_id {
            assert(gone.selects(after.subs_at(p)[i].id));
        }
    }
    assert forall|i: int| 0 <= i < after.ls_all().len() implies (
    #[trigger] after.ls_all()[i]).id.client_id != client_id by {
        if after.ls_all()[i].id.client_id == client_id {
            assert(gone.selects(after.ls_all()[i].id));
        }
    }
}

/// Exclusive mutation: what storing a value does is decided by the state
/// before it and the request alone. Two runs from the same state give the
/// same events in the same order and leave the same values behind, so the
/// events that a subscription is handed, request after request, are those
/// of the requests carried out one after the other.
pub proof fn law_serial_set(
    before: &Worterbuch,
    key: Seq<char>,
    value: Value,
    client_id: Seq<char>,
    first: &Worterbuch,
    first_result: Result<Outbox, crate::error::WorterbuchError>,
    second: &Worterbuch,
    second_result: Result<Outbox, crate::error::WorterbuchError>,
)
    requires
        Worterbuch::set_post(before, first, key, value, client_id, first_result),
        Worterbuch::set_post(before, second, key, value, client_id, second_result),
    ensures
        first.values() == second.values(),
        first.seen() == second.seen(),
        match (first_result, second_result) {
            (Ok(a), Ok(b)) => a@ == b@,
            (Err(a), Err(b)) => a@ == b@,
            _ => false,
        },
{
    reveal(Worterbuch::set_post);
}

/// The same for deleting a value.
pub proof fn law_serial_delete(
    before: &Worterbuch,
    key: Seq<char>,
    client_id: Seq<char>,
    first: &Worterbuch,
    first_result: Result<(crate::codec::KeyValuePair, Outbox), crate::error::WorterbuchError>,
    second: &Worterbuch,
    second_result: Result<(crate::codec::KeyValuePair, Outbox), crate::error::WorterbuchError>,
)
    requires
        Worterbuch::delete_post(before, first, key, client_id, first_result),
        Worterbuch::delete_post(before, second, key, client_id, second_result),
    ensures
        first.values() == second.values(),
        first.seen() == second.seen(),
        match (first_result, second_result) {
            (Ok(a), Ok(b)) => a.0@ == b.0@ && a.1@ == b.1@,
            (Err(a), Err(b)) => a@ == b@,
            _ => false,
        },
{
    reveal(Worterbuch::delete_post);
}

/// Every piece of news for the subscriptions to child names goes to a
/// watcher of a parent on the path whose child on the path counts as
/// changed.
pub proof fn lemma_ls_news_source(
    all: Seq<LsSubscriberView>,
    marks: ValueMap,
    values: ValueMap,
    path: Seq<Seq<char>>,
    upto: nat,
    j: int,
) -> (depth: int)
    requires
        upto <= path.len(),
        0 <= j < ls_news(all, marks, values, path, upto).len(),
    ensures
        0 <= depth < upto,
        !reaches(marks, path.subrange(0, depth + 1)),
        watchers(all, path.subrange(0, depth)).contains(
            ls_news(all, marks, values, path, upto)[j].subscription,
        ),
        ls_news(all, marks, values, path, upto)[j].children == child_list(
            values,
            path.subrange(0, depth),
        ),
    decreases upto,
{
    let earlier = ls_news(all, marks, values, path, (upto - 1) as nat);
    if j < earlier.len() {
        lemma_ls_news_source(all, marks, values, path, (upto - 1) as nat, j)
    } else {
        let depth = upto - 1;
        let ids = watchers(all, path.subrange(0, depth));
        let k = j - earlier.len();
        assert(ls_news(all, marks, values, path, upto)[j] == ls_events_for(
            ids,
            child_list(values, path.subrange(0, depth)),
        )[k]);
        assert(ids[k] == ls_news(all, marks, values, path, upto)[j].subscription);
        depth
    }
}

/// Among the news for the first `upto` parents of a path, a watcher of a
/// parent whose child on the path counts as changed finds the list of the
/// children of that parent, and nothing else.
pub proof fn lemma_ls_news_once(
    all: Seq<LsSubscriberView>,
    marks: ValueMap,
    values: ValueMap,
    path: Seq<Seq<char>>,
    upto: nat,
    depth: int,
    id: SubscriptionId,
) -> (i: int)
    requires
        distinct_ids(all),
        0 <= depth < upto <= path.len(),
        !reaches(marks, path.subrange(0, depth + 1)),
        watchers(all, path.subrange(0, depth)).contains(id),
    ensures
        0 <= i < ls_news(all, marks, values, path, upto).len(),
        ls_news(all, marks, values, path, upto)[i] == (LsDeliveryView {
            subscription: id,
            children: child_list(values, path.subrange(0, depth)),
        }),
        forall|j: int|
            0 <= j < ls_news(all, marks, values, path, upto).len() && j != i ==> ls_news(
                all,
                marks,
                values,
                path,
                upto,
            )[j].subscription != id,
    decreases upto,
{
    let news = ls_news(all, marks, values, path, upto);
    let earlier = ls_news(all, marks, values, path, (upto - 1) as nat);
    let parent = path.subrange(0, depth);
    let last = upto - 1;
    let last_parent = path.subrange(0, last);
    let last_ids = watchers(all, last_parent);
    let last_news = if !reaches(marks, path.subrange(0, last + 1)) {
        ls_events_for(last_ids, child_list(values, last_parent))
    } else {
        Seq::<LsDeliveryView>::empty()
    };
    assert(news == earlier + last_news);
    if depth < last {
        let i = lemma_ls_news_once(all, marks, values, path, (upto - 1) as nat, depth, id);
        lemma_watchers_distinct(all, parent, last_parent);
        assert(parent.len() != last_parent.len());
        assert forall|j: int| 0 <= j < news.len() && j != i implies news[j].subscription != id by {
            if j >= earlier.len() {
                let k = j - earlier.len();
                assert(news[j] == last_news[k]);
                assert(last_ids[k] == news[j].subscription);
                let a = choose|a: int|
                    0 <= a < watchers(all, parent).len() && watchers(all, parent)[a] == id;
                assert(watchers(all, parent)[a] != last_ids[k]);
            }
        }
        i
    } else {
        lemma_watchers_distinct(all, parent, parent);
        let k = choose|k: int| 0 <= k < last_ids.len() && last_ids[k] == id;
        let i = earlier.len() + k;
        assert(news[i] == last_news[k]);
        assert forall|j: int| 0 <= j < news.len() && j != i implies news[j].subscription != id by {
            if j >= earlier.len() {
                let m = j - earlier.len();
                assert(news[j] == last_news[m]);
                if m < k {
                    assert(last_ids[m] != last_ids[k]);
                } else {
                    assert(last_ids[k] != last_ids[m]);
                }
            } else {
                let d = lemma_ls_news_source(all, marks, values, path, (upto - 1) as nat, j);
                let other = path.subrange(0, d);
                assert(other.len() != parent.len());
                lemma_watchers_distinct(all, parent, other);
                let a = choose|a: int|
                    0 <= a < watchers(all, other).len() && watchers(all, other)[a]
                        == earlier[j].subscription;
                assert(watchers(all, parent)[k] != watchers(all, other)[a]);
            }
        }
        i
    }
}

/// Ls correctness: where a value is stored under a key and nothing was
/// stored at or below a start of the key before, every subscription to the
/// children of the parent of that start is handed the list of the children
/// that the parent has now, by exactly one of the events that the call
/// returns. The list holds each name under which a value is now stored at
/// or below the parent, once, in ascending order.
pub proof fn law_ls_correctness(
    before: &Worterbuch,
    after: &Worterbuch,
    key: Seq<char>,
    value: Value,
    client_id: Seq<char>,
    outbox: Outbox,
    depth: int,
    id: SubscriptionId,
)
    requires
        before.wf(),
        after.wf(),
        Worterbuch::set_post(before, after, key, value, client_id, Ok(outbox)),
        0 <= depth < split(key, '/').len(),
        !reaches(before.values(), split(key, '/').subrange(0, depth + 1)),
        watchers(before.ls_all(), split(key, '/').subrange(0, depth)).contains(id),
    ensures
        exists|i: int|
            0 <= i < outbox@.ls_events.len() && #[trigger] outbox@.ls_events[i] == (LsDeliveryView {
                subscription: id,
                children: child_list(after.values(), split(key, '/').subrange(0, depth)),
            }) && is_child_list(
                outbox@.ls_events[i].children,
                after.values(),
                split(key, '/').subrange(0, depth),
            ) && forall|j: int|
                0 <= j < outbox@.ls_events.len() && j != i ==> outbox@.ls_events[j].subscription
                    != id,
{
    reveal(Worterbuch::set_post);
    let path = split(key, '/');
    after.lemma_children(path.subrange(0, depth));
    before.lemma_selected(Selection::Client(0));
    let i = lemma_ls_news_once(
        before.ls_all(),
        before.values(),
        after.values(),
        path,
        path.len(),
        depth,
        id,
    );
    assert(outbox@.ls_events[i].subscription == id);
}

/// Keepalive: at a tick of the clock, a session that is not closing is to
/// be closed exactly where nothing came from the client for the time of the
/// keepalive timeout, and else a keepalive message is due exactly where
/// nothing went to the client for a second.
pub proof fn law_keepalive(session: Session, now: Millis)
    requires
        !(session.state() is Closing),
    ensures
        Session::due(session, now).close <==> elapsed(session.last_rx(), now)
            >= session.keepalive_timeout(),
        !Session::due(session, now).close ==> (Session::due(session, now).keepalive <==> elapsed(
            session.last_tx(),
            now,
        ) >= KEEPALIVE_INTERVAL),
{
}

} // verus!
