//! What is promised of the feed: where messages go, what is caught up on, and how requests are
//! made again.

use vstd::prelude::*;

use crate::cursors::{
    after_failed, after_handled, after_history, after_pending, after_rebase, baseline_of, caught,
    lemma_missed_is_everything_newer, missed, plan, CursorModel,
};
use crate::delivery::{
    edited, posted_message_id, step_for, Reply, Retry, Retryable, SendError, SendState, StepModel,
};
use crate::feed::{
    backoff_after, caught_up, doubled, id_of, is_stale, kind_for, low_word, queued, reconnect,
    route_for, Kind, MessageModel, PendingEew, RouteModel,
};
use crate::json::{json_parse, json_text, JsonView};
use crate::tracker::{keys, lemma_only_position, lemma_position, position};

verus! {

/// A code stands for one kind of message: 551 for a report of an earthquake, 552 for a tsunami
/// forecast, 556 for an early warning, and no other for any. Early warnings are not caught up
/// on.
pub proof fn lemma_what_codes_stand_for(code: i32)
    ensures
        kind_for(code) == Some(Kind::Quake) <==> code == 551,
        kind_for(code) == Some(Kind::Tsunami) <==> code == 552,
        kind_for(code) == Some(Kind::Eew) <==> code == 556,
        kind_for(code) is None <==> code != 551 && code != 552 && code != 556,
        caught_up(code) <==> code == 551 || code == 552,
{
}

/// A message goes by the text under `_id`, and by the one under `id` if it has no `_id`.
pub proof fn lemma_what_messages_go_by(v: JsonView)
    ensures
        v.member("_id"@) is None ==> id_of(v) == v.member_text("id"@),
        v.member("_id"@) is Some ==> id_of(v) == v.member_text("_id"@),
{
}

/// A message whose code is a number of 32 bits goes where that code belongs, with its ID and as
/// it was received: a warning that names an event to the warnings about that event, a report or
/// a forecast to the worker, and everything else nowhere.
pub proof fn lemma_where_messages_go(v: JsonView, text: Seq<char>, code: i32)
    ensures
        v.member_integer("code"@) is None ==> route_for(v, text) == RouteModel::Ignored,
        v.member_integer("code"@) == Some(code as int) ==> ({
            let message = MessageModel { code, id: id_of(v), text };
            let event = match v.member("issue"@) {
                Some(issue) => issue.member_text("eventId"@),
                None => None,
            };
            &&& code == 551 || code == 552 ==> route_for(v, text) == RouteModel::Worker(message)
            &&& code == 556 ==> match event {
                Some(id) => if id.len() > 0 {
                    route_for(v, text) == RouteModel::Eew(id, message)
                } else {
                    route_for(v, text) == RouteModel::Ignored
                },
                None => route_for(v, text) == RouteModel::Ignored,
            }
            &&& code != 551 && code != 552 && code != 556 ==> route_for(v, text)
                == RouteModel::Ignored
        }),
{
    if v.member_integer("code"@) == Some(code as int) {
        assert(low_word(code as int) == code) by (nonlinear_arith)
            requires
                -0x8000_0000 <= code < 0x8000_0000,
        ;
    }
}

/// A warning takes the place of the one about the same event that waits; otherwise it goes to
/// the end, and if 32 wait the oldest makes room.
pub proof fn lemma_where_warnings_wait(
    queue: Seq<(Seq<char>, PendingEew)>,
    p: PendingEew,
    i: int,
)
    requires
        keys(queue).no_duplicates(),
        queue.len() <= 32,
    ensures
        0 <= i < queue.len() && queue[i].0 == p.event_id@ ==> queued(queue, p) == queue.update(
            i,
            (p.event_id@, p),
        ),
        (forall|j: int| 0 <= j < queue.len() ==> (#[trigger] queue[j]).0 != p.event_id@) ==> queued(
            queue,
            p,
        ) == (if queue.len() < 32 {
            queue + seq![(p.event_id@, p)]
        } else {
            queue.subrange(1, 32) + seq![(p.event_id@, p)]
        }),
{
    lemma_position(queue, p.event_id@);
    if 0 <= i < queue.len() && queue[i].0 == p.event_id@ {
        lemma_only_position(queue, i);
    }
    if position(queue, p.event_id@) is None {
        let longer = queue.push((p.event_id@, p));
        assert(longer =~= queue + seq![(p.event_id@, p)]);
        if queue.len() == 32 {
            assert(longer.drop_first() =~= queue.subrange(1, 32) + seq![(p.event_id@, p)]);
        }
    }
}

/// A warning is too old after three minutes.
pub proof fn lemma_warnings_are_good_for_three_minutes(age: u128, r: bool)
    requires
        call_ensures(is_stale, (age,), r),
    ensures
        r == (age > 3 * 60 * 1_000_000_000),
{
}

/// The wait before a new connection is half a second at first, doubles with each failure up to
/// eight seconds, and is half a second again after a minute of connection; it is ten seconds
/// where there were too many connections.
pub proof fn lemma_waits_before_a_new_connection(
    backoff: u64,
    up: u128,
    rate_limited: bool,
    r: (u64, u64),
)
    requires
        call_ensures(reconnect, (backoff, up, rate_limited), r),
    ensures
        backoff_after(0) == 500,
        ({
            let base = if up >= 60 * 1_000_000_000 {
                500
            } else {
                backoff as int
            };
            &&& !rate_limited ==> r.0 == base
            &&& rate_limited ==> r.0 == 10_000
            &&& base <= 4_000 ==> r.1 == base + base
            &&& base >= 4_000 ==> r.1 == 8_000
        }),
{
}

/// The wait after a failure is twice the one before it, and eight seconds at most.
pub proof fn lemma_waits_double(current: u64, failures: nat)
    ensures
        current <= 4_000 ==> doubled(current) == current + current,
        current >= 4_000 ==> doubled(current) == 8_000,
        backoff_after(failures + 1) == doubled(backoff_after(failures)),
{
}

/// What was asked for until a message is caught up on: the messages that stand before the
/// baseline in the history, each with its code, its ID and its text, the oldest first.
pub proof fn lemma_what_is_caught_up_on(
    code: i32,
    m: CursorModel,
    items: Seq<JsonView>,
    n: int,
    k: int,
)
    requires
        m.primed,
        match m.handled {
            Some(id) => {
                &&& 0 <= n < items.len()
                &&& id_of(items[n]) == Some(id)
                &&& forall|j: int| 0 <= j < n ==> id_of(#[trigger] items[j]) != Some(id)
            },
            None => n == items.len(),
        },
    ensures
        caught(code, m, items).len() == n,
        0 <= k < n ==> caught(code, m, items)[n - 1 - k] == (MessageModel {
            code,
            id: id_of(items[k]),
            text: json_text(items[k]),
        }),
        after_history(m, items) == (CursorModel { catch_up_pending: false, ..m }),
{
    match m.handled {
        Some(id) => {
            lemma_missed_is_everything_newer(items, id);
            match missed(items, id) {
                Some(list) => {
                    let l = list.len() as int;
                    if l < n {
                        assert(id_of(items[l]) != Some(id));
                    }
                    if n < l {
                        assert(id_of(items[n]) != Some(id));
                    }
                    assert(l == n);
                    if 0 <= k < n {
                        assert(list[n - 1 - k] == items[k]);
                    }
                },
                None => {
                    assert(id_of(items[n]) != Some(id));
                },
            }
        },
        None => {
            let list = items.reverse();
            assert(plan(items, baseline_of(m)) == Some(list));
            if 0 <= k < n {
                assert(list[n - 1 - k] == items[k]);
            }
        },
    }
}

/// Where the history does not reach back to the baseline, or there is none, nothing is caught
/// up on, and the newest message is the new baseline.
pub proof fn lemma_when_nothing_is_caught_up_on(code: i32, m: CursorModel, items: Seq<JsonView>)
    requires
        !m.primed || m.handled is Some && forall|j: int|
            0 <= j < items.len() ==> id_of(#[trigger] items[j]) != m.handled,
    ensures
        caught(code, m, items).len() == 0,
        after_history(m, items) == (CursorModel {
            primed: true,
            handled: if items.len() > 0 {
                id_of(items[0])
            } else {
                None
            },
            failed: None,
            catch_up_pending: false,
        }),
{
    if m.primed {
        let id = m.handled->0;
        lemma_missed_is_everything_newer(items, id);
        match missed(items, id) {
            Some(list) => {
                assert(id_of(items[list.len() as int]) != m.handled);
            },
            None => {},
        }
    }
}

/// A message that was handled is the new baseline, unless another one has failed; the first one
/// that could not be handled is kept in mind until it is, and holds the baseline.
pub proof fn lemma_how_the_baseline_moves(m: CursorModel, id: Seq<char>, other: Seq<char>)
    requires
        other != id,
    ensures
        m.failed is None ==> after_handled(m, id) == (CursorModel { handled: Some(id), ..m }),
        m.failed == Some(id) ==> after_handled(m, id) == (CursorModel {
            handled: Some(id),
            failed: None,
            ..m
        }),
        m.failed == Some(other) ==> after_handled(m, id) == m,
        m.failed is None ==> after_failed(m, id) == (CursorModel { failed: Some(id), ..m }),
        m.failed is Some ==> after_failed(m, id) == m,
        after_rebase(m, Some(id)) == (CursorModel {
            primed: true,
            handled: Some(id),
            failed: None,
            catch_up_pending: m.catch_up_pending,
        }),
        after_pending(m, true) == (CursorModel { catch_up_pending: true, ..m }),
        after_pending(m, false) == (CursorModel { catch_up_pending: false, ..m }),
{
}

/// A request that is made again waits as long as the server asks, or as it would without, and
/// the next wait is three times as long, five seconds at most.
pub open spec fn made_again(state: SendState, after: Option<u128>, step: StepModel) -> bool {
    let wait = match after {
        Some(asked) => asked,
        None => state.wait,
    };
    match step {
        StepModel::Again(w, next) => {
            &&& w == wait
            &&& next.attempt == state.attempt + 1
            &&& next.wait == (if 3 * wait <= 5_000_000_000 {
                3 * wait
            } else {
                5_000_000_000
            })
        },
        _ => false,
    }
}

/// An answer of success ends the attempts with its body. A request that was turned away is made
/// again up to three times, and so is an edit at which the server failed; where the server asks
/// for more than five seconds it is given up. Everything else is given up at once, with the
/// status and the body.
pub proof fn lemma_what_is_done_about_an_answer(
    state: SendState,
    status: u16,
    status_text: String,
    after: Option<u128>,
    after_text: String,
    body: String,
    retry: Retry,
    what: Seq<char>,
)
    ensures
        ({
            let step = step_for(
                state,
                Reply::Answer { status, status_text, after, after_text, body },
                retry,
                what,
            );
            let worth = status == 429 || 500 <= status <= 599 && retry == Retry::Idempotent;
            let too_long = after matches Some(asked) && asked > 5_000_000_000;
            &&& 200 <= status <= 299 ==> step == StepModel::Done(body@)
            &&& worth && state.attempt < 3 && !too_long ==> made_again(state, after, step)
            &&& worth && state.attempt < 3 && too_long ==> step == StepModel::GiveUp(
                what + "がレート制限: "@ + after_text@ + " の待機が必要なため諦めます"@,
                Retryable::Safe,
            )
            &&& !(200 <= status <= 299) && (!worth || state.attempt >= 3) ==> step
                == StepModel::GiveUp(
                what + "がエラー応答: "@ + status_text@ + " "@ + body@,
                if 500 <= status <= 599 && retry == Retry::CreateOnce {
                    Retryable::Unsafe
                } else {
                    Retryable::Safe
                },
            )
        }),
{
}

/// Without an answer an edit is made again up to three times, and so is a request that never
/// arrived. One that creates a message and may have arrived is given up at once, as one that
/// must not be sent again.
pub proof fn lemma_what_is_done_without_an_answer(
    state: SendState,
    connect: bool,
    text: String,
    retry: Retry,
    what: Seq<char>,
)
    ensures
        ({
            let step = step_for(state, Reply::Failure { connect, text }, retry, what);
            let unclear = retry == Retry::CreateOnce && !connect;
            &&& !unclear && state.attempt < 3 ==> made_again(state, None, step)
            &&& !unclear && state.attempt >= 3 ==> step == StepModel::GiveUp(
                what + ": "@ + text@,
                Retryable::Safe,
            )
            &&& unclear ==> step == StepModel::GiveUp(what + ": "@ + text@, Retryable::Unsafe)
        }),
{
}

/// The first attempt is followed by a wait of half a second.
pub proof fn lemma_the_first_attempt(r: SendState)
    requires
        call_ensures(SendState::first, (), r),
    ensures
        r.attempt == 1,
        r.wait == 500_000_000,
{
}

/// The ID of a new message is what the answer has under `id`; an answer without one must not be
/// followed by another request, for the message is there.
pub proof fn lemma_the_id_of_a_new_message(body: &str, r: Result<String, SendError>)
    requires
        call_ensures(posted_message_id, (body,), r),
    ensures
        match json_parse(body@) {
            Some(v) => match v.member_text("id"@) {
                Some(id) => r matches Ok(found) && found@ == id,
                None => r matches Err(e) && e.mark == Some(Retryable::Unsafe),
            },
            None => r matches Err(e) && e.mark == Some(Retryable::Unsafe),
        },
{
}

/// An edit says all that the payload says, and that the new map takes the place of the old one,
/// or that there is none.
pub proof fn lemma_what_an_edit_says(payload: JsonView, with_image: bool, key: Seq<char>)
    requires
        payload is Object,
    ensures
        key != "attachments"@ ==> edited(payload, with_image).member(key) == payload.member(key),
        !with_image ==> edited(payload, with_image).member_list("attachments"@) == Some(
            Seq::<JsonView>::empty(),
        ),
        with_image ==> ({
            let files = edited(payload, with_image).member_list("attachments"@);
            &&& files matches Some(list) && list.len() == 1 && list[0].member_integer("id"@)
                == Some(0int) && list[0].member_text("filename"@) == Some("quake.webp"@)
        }),
{
    reveal_strlit("id");
    reveal_strlit("filename");
    assert("id"@.len() == 2 && "filename"@.len() == 8);
}

} // verus!
