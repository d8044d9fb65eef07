//! What is promised of the functions that others call: what they answer, and what they leave
//! behind.

use serde_json::Value;
use vstd::prelude::*;

use crate::config::WatchedPoint;
use crate::cursors::{
    after_failed, after_handled, after_history, after_offer, after_pending, after_rebase, catch_up,
    caught, models, postpone_catch_up, Cursors, Offer,
};
use crate::delivery::{
    after_attempt, edit_payload, edit_url, edited, post_url, step_for, Reply, Retry, SendState,
    SendStep,
};
use crate::discord::{
    build_eew_payload, build_payload, build_tsunami_payload, eew_payload, fmt_depth, fmt_magnitude,
    fmt_points, groups_text, highlight_watched_eew, highlight_watched_quake, point_items,
    quake_payload, tsunami_payload, watched_lines_of, watched_quake_lines, with_watched,
};
use crate::feed::{
    dispatch, queued, route_for, route_text, session_step, EewQueue, Incoming, MessageModel,
    PendingEew, Route, RouteModel, SessionEvent, SessionStep,
};
use crate::geo::{
    area_markers, eew_areas_to_markers, found, lemma_search_finds_every_match, matching,
    observation_point_coord, point_markers, points_to_markers, ranked, search_observation_stations,
    search_text, station_coord, Found, Marker, ObservationStation, ObservationStationMatch,
    SearchError,
};
use crate::intensity::{
    decide, decide_eew, eew_reason, eew_scale_label, embed_color, marker_rgb, quake_reason,
    observed, region_threshold, scale_label, scale_text, NotifyDecision, RegionScales,
};
use crate::json::{json_parse, json_view, views};
use crate::laws::alerts::{
    calls_for, lemma_reports_are_announced_where_they_are_felt,
    lemma_warnings_are_announced_where_they_will_be_felt,
};
use crate::laws::notices::{is_known, lemma_which_forecasts_warn};
use crate::laws::posts::{counted, of_depth, of_magnitude, some_coast};
use crate::laws::stations::days_in;
use crate::model::{Earthquake, Eew, EewArea, JmaQuake, Point, Tsunami};
use crate::notices::{
    action_after, eew_map, eew_view, entry_of, map_for, pick_eew, pick_prompt, pick_quake,
    pick_tsunami, prepare_eew, prepare_quake, prepare_tsunami, quake_map, quake_view, quakes_after,
    record_eew, record_quake, record_tsunami, ActionModel, MapRequest, Notice, Outcome,
};
use crate::reading::{Measure, Real};
use crate::stations::{date_text, day_number, is_date, utc_date};
use crate::tracker::{
    posts_after_edit, posts_after_insert, remembered, signature, with_entry, with_mark, EewTracker,
    QuakePost, QuakeTracker, SeenIds,
};

verus! {

/// A search is refused if it asks for no result at all, and then if nothing is left of the
/// query; otherwise it finds every station that matches, or the best of them, as many as asked
/// for.
pub proof fn lemma_what_a_search_answers(
    stations: &[ObservationStation],
    query: &str,
    limit: Option<usize>,
    r: Result<Vec<ObservationStationMatch>, SearchError>,
    all: Seq<Found>,
)
    requires
        call_ensures(search_observation_stations, (stations, query, limit), r),
        all == ranked(matching(stations@, search_text(query@))),
    ensures
        limit == Some(0usize) ==> r == Err::<Vec<ObservationStationMatch>, SearchError>(
            SearchError::ZeroLimit,
        ),
        limit != Some(0usize) && search_text(query@).len() == 0 ==> r == Err::<
            Vec<ObservationStationMatch>,
            SearchError,
        >(SearchError::EmptyQuery),
        limit != Some(0usize) && search_text(query@).len() > 0 ==> {
            &&& r is Ok
            &&& limit is None || limit->0 >= all.len() ==> found(r->Ok_0@) == all
            &&& limit is Some && limit->0 < all.len() ==> found(r->Ok_0@) == all.subrange(
                0,
                limit->0 as int,
            )
        },
        forall|i: int|
            0 <= i < stations@.len() ==> (match crate::geo::match_score(
                search_text(query@),
                search_text((#[trigger] stations@[i]).pref@),
                search_text(stations@[i].name@),
            ) {
                Some(score) => all.contains((score, stations@[i])),
                None => true,
            }),
{
    lemma_search_finds_every_match(stations@, search_text(query@));
    if limit is Some && limit->0 < all.len() {
        assert(all.subrange(0, limit->0 as int) =~= all.take(limit->0 as int));
    }
}

/// Whether a report is one to announce.
pub open spec fn calls(quake: JmaQuake, scales: RegionScales, other: i32) -> bool {
    quake.earthquake.max_scale >= other || exists|i: int|
        0 <= i < quake.points@.len() && calls_for(
            (#[trigger] quake.points@[i]).scale,
            quake.points@[i].pref@,
            scales,
            other,
        )
}

/// Whether a warning is one to announce.
pub open spec fn warns(eew: Eew, scales: RegionScales, other: i32) -> bool {
    exists|i: int|
        0 <= i < eew.areas@.len() && calls_for(
            counted(#[trigger] eew.areas@[i]),
            eew.areas@[i].pref@,
            scales,
            other,
        )
}

/// A report and a warning are announced exactly if they call for it, and with the reason for
/// it.
pub proof fn lemma_what_is_decided(
    earthquake: &Earthquake,
    points: &[Point],
    areas: &[EewArea],
    scales: &RegionScales,
    other: i32,
    of_report: NotifyDecision,
    of_warning: NotifyDecision,
)
    requires
        call_ensures(decide, (earthquake, points, scales, other), of_report),
        call_ensures(decide_eew, (areas, scales, other), of_warning),
    ensures
        of_report.notify <==> (earthquake.max_scale >= other || exists|i: int|
            0 <= i < points@.len() && calls_for(
                (#[trigger] points@[i]).scale,
                points@[i].pref@,
                *scales,
                other,
            )),
        of_report.reason@ == quake_reason(
            earthquake.max_scale,
            observed(points@),
            *scales,
            other,
        ),
        of_warning.notify <==> exists|i: int|
            0 <= i < areas@.len() && calls_for(
                counted(#[trigger] areas@[i]),
                areas@[i].pref@,
                *scales,
                other,
            ),
        of_warning.reason@ == eew_reason(areas@, *scales, other),
{
    lemma_reports_are_announced_where_they_are_felt(
        earthquake.max_scale,
        points@,
        *scales,
        other,
    );
    lemma_warnings_are_announced_where_they_will_be_felt(areas@, *scales, other);
}

/// A region that is set has its own scale, and every other place the common one.
pub proof fn lemma_what_a_region_goes_by(
    region: Option<&str>,
    scales: &RegionScales,
    other: i32,
    r: i32,
)
    requires
        call_ensures(region_threshold, (region, scales, other), r),
    ensures
        region is None ==> r == other,
        region matches Some(name) ==> (match scales.scale_of(name@) {
            Some(own) => r == own,
            None => r == other,
        }),
{
}

/// The first report that calls for it is picked, and none only if none does.
pub proof fn lemma_which_report_is_picked(
    quakes: &[JmaQuake],
    scales: &RegionScales,
    other: i32,
    r: Option<usize>,
)
    requires
        call_ensures(pick_quake, (quakes, scales, other), r),
    ensures
        r matches Some(k) ==> k < quakes@.len() && calls(quakes@[k as int], *scales, other),
        forall|j: int|
            0 <= j < (match r {
                Some(k) => k as int,
                None => quakes@.len() as int,
            }) ==> !calls(#[trigger] quakes@[j], *scales, other),
{
    assert forall|j: int| 0 <= j < quakes@.len() implies crate::notices::announced(
        #[trigger] quakes@[j],
        *scales,
        other,
    ) == calls(quakes@[j], *scales, other) by {
        lemma_reports_are_announced_where_they_are_felt(
            quakes@[j].earthquake.max_scale,
            quakes@[j].points@,
            *scales,
            other,
        );
    }
}

/// Whether a report calls for it and can be drawn, though its hypocenter is not known.
pub open spec fn calls_without_hypocenter(
    quake: JmaQuake,
    stations: Seq<ObservationStation>,
    scales: RegionScales,
    other: i32,
) -> bool {
    &&& !is_known(quake.earthquake.hypocenter)
    &&& point_markers(quake.points@, stations).len() > 0
    &&& calls(quake, scales, other)
}

/// The first prompt report is picked: one that calls for it and can be drawn without its
/// hypocenter.
pub proof fn lemma_which_prompt_report_is_picked(
    quakes: &[JmaQuake],
    stations: &[ObservationStation],
    scales: &RegionScales,
    other: i32,
    r: Option<usize>,
)
    requires
        call_ensures(pick_prompt, (quakes, stations, scales, other), r),
    ensures
        r matches Some(k) ==> k < quakes@.len() && calls_without_hypocenter(
            quakes@[k as int],
            stations@,
            *scales,
            other,
        ),
        forall|j: int|
            0 <= j < (match r {
                Some(k) => k as int,
                None => quakes@.len() as int,
            }) ==> !calls_without_hypocenter(#[trigger] quakes@[j], stations@, *scales, other),
{
    assert forall|j: int| 0 <= j < quakes@.len() implies crate::notices::announced(
        #[trigger] quakes@[j],
        *scales,
        other,
    ) == calls(quakes@[j], *scales, other) by {
        lemma_reports_are_announced_where_they_are_felt(
            quakes@[j].earthquake.max_scale,
            quakes@[j].points@,
            *scales,
            other,
        );
    }
}

/// The first warning that calls for it and is not withdrawn is picked.
pub proof fn lemma_which_warning_is_picked(
    eews: &[Eew],
    scales: &RegionScales,
    other: i32,
    r: Option<usize>,
)
    requires
        call_ensures(pick_eew, (eews, scales, other), r),
    ensures
        r matches Some(k) ==> k < eews@.len() && !eews@[k as int].cancelled && warns(
            eews@[k as int],
            *scales,
            other,
        ),
        forall|j: int|
            0 <= j < (match r {
                Some(k) => k as int,
                None => eews@.len() as int,
            }) ==> (#[trigger] eews@[j]).cancelled || !warns(eews@[j], *scales, other),
{
    assert forall|j: int| 0 <= j < eews@.len() implies crate::intensity::best_reading(
        crate::intensity::forecast((#[trigger] eews@[j]).areas@),
        *scales,
        other,
    ) is Some == warns(eews@[j], *scales, other) by {
        lemma_warnings_are_announced_where_they_will_be_felt(eews@[j].areas@, *scales, other);
    }
}

/// Whether a forecast has a coast with one of the three grades.
pub open spec fn has_grade(t: Tsunami) -> bool {
    ||| some_coast(t.areas@, "MajorWarning"@)
    ||| some_coast(t.areas@, "Warning"@)
    ||| some_coast(t.areas@, "Watch"@)
}

/// The first forecast that warns and is not lifted is picked.
pub proof fn lemma_which_forecast_is_picked(tsunamis: &[Tsunami], r: Option<usize>)
    requires
        call_ensures(pick_tsunami, (tsunamis,), r),
    ensures
        r matches Some(k) ==> k < tsunamis@.len() && !tsunamis@[k as int].cancelled && has_grade(
            tsunamis@[k as int],
        ),
        forall|j: int|
            0 <= j < (match r {
                Some(k) => k as int,
                None => tsunamis@.len() as int,
            }) ==> (#[trigger] tsunamis@[j]).cancelled || !has_grade(tsunamis@[j]),
{
    assert forall|j: int| 0 <= j < tsunamis@.len() implies crate::notices::graded(
        (#[trigger] tsunamis@[j]).areas@,
    ) == has_grade(tsunamis@[j]) by {
        lemma_which_forecasts_warn(tsunamis@[j]);
    }
}

/// A forecast that is remembered is not sent again. Otherwise one that is lifted or warns is
/// sent, and remembered once it was; one that does neither is not sent, and remembered at once.
pub proof fn lemma_when_a_forecast_is_sent(
    tsunami: &Tsunami,
    is_test: bool,
    r: Option<Value>,
    sent: bool,
)
    ensures
        forall|seen: &mut SeenIds| #[trigger]
            call_ensures(prepare_tsunami, (seen, tsunami, is_test), r) ==> {
                let again = tsunami.id@.len() > 0 && (*seen)@.contains(tsunami.id@);
                let due = tsunami.cancelled || has_grade(*tsunami);
                &&& r is Some <==> !again && due
                &&& r matches Some(v) ==> json_view(v) == tsunami_payload(*tsunami, is_test)
                &&& again || due ==> final(seen)@ == (*seen)@
                &&& !again && !due ==> final(seen)@ == with_mark((*seen)@, tsunami.id@)
            },
        forall|seen: &mut SeenIds| #[trigger]
            call_ensures(record_tsunami, (seen, tsunami, sent), ()) ==> {
                &&& sent ==> final(seen)@ == with_mark((*seen)@, tsunami.id@)
                &&& !sent ==> final(seen)@ == (*seen)@
            },
{
    lemma_which_forecasts_warn(*tsunami);
}

/// A notice of an earthquake has the payload of the report and the signature of that payload.
/// It goes by what was posted about the same kind of report on the same earthquake; a report
/// without a time is always posted, and nothing is kept of it.
pub proof fn lemma_how_a_notice_is_prepared(
    quake: &JmaQuake,
    reason: &str,
    watched: &[WatchedPoint],
    with_image: bool,
    is_test: bool,
    r: Notice,
)
    ensures
        forall|tracker: &mut QuakeTracker| #[trigger]
            call_ensures(
                prepare_quake,
                (tracker, quake, reason, watched, with_image, is_test),
                r,
            ) ==> {
                let key = quake.earthquake.time@;
                let kept = entry_of((*tracker)@, key);
                &&& json_view(r.payload) == quake_view(*quake, reason@, watched@, with_image, is_test)
                &&& r.signature == signature(json_view(r.payload))
                &&& key.len() == 0 ==> r.action.model() == ActionModel::Send && final(tracker)@
                    == (*tracker)@
                &&& key.len() > 0 ==> final(tracker)@ == with_entry((*tracker)@, key)
                    && r.action.model() == action_after(
                    if quake.issue.issue_type@ == "ScalePrompt"@ {
                        kept.prompt
                    } else {
                        kept.detail
                    },
                    r.signature,
                )
            },
{
}

/// What became of a notice is kept for the same kind of report on the same earthquake.
pub proof fn lemma_how_a_notice_is_kept(quake: &JmaQuake, sig: u64, outcome: Outcome)
    ensures
        forall|tracker: &mut QuakeTracker| #[trigger]
            call_ensures(record_quake, (tracker, quake, sig, outcome), ()) ==> final(tracker)@
                == quakes_after(
                (*tracker)@,
                quake.earthquake.time@,
                quake.issue.issue_type@ == "ScalePrompt"@,
                sig,
                outcome,
            ),
{
}

/// A warning goes by what was posted about the same event, and has the signature of its
/// payload.
pub proof fn lemma_how_a_warning_is_prepared(
    tracker: &EewTracker,
    eew: &Eew,
    reason: &str,
    watched: &[WatchedPoint],
    with_image: bool,
    is_test: bool,
    r: Notice,
)
    requires
        call_ensures(prepare_eew, (tracker, eew, reason, watched, with_image, is_test), r),
    ensures
        json_view(r.payload) == eew_view(*eew, reason@, watched@, with_image, is_test),
        r.signature == signature(json_view(r.payload)),
        r.action.model() == action_after(tracker.lookup(eew.issue.event_id@), r.signature),
{
}

/// A warning that was posted is kept with its message, one that was edited with its new
/// signature, and one that failed leaves everything as it was.
pub proof fn lemma_how_a_warning_is_kept(event_id: &str, sig: u64, message_id: String)
    ensures
        forall|tracker: &mut EewTracker| #[trigger]
            call_ensures(record_eew, (tracker, event_id, sig, Outcome::Failed), ()) ==> *final(tracker) == *tracker,
        forall|tracker: &mut EewTracker| #[trigger]
            call_ensures(record_eew, (tracker, event_id, sig, Outcome::Edited), ()) ==> {
                &&& final(tracker).posts() == posts_after_edit(tracker.posts(), event_id@, sig)
                &&& final(tracker).order() == tracker.order()
            },
        forall|tracker: &mut EewTracker| #[trigger]
            call_ensures(record_eew, (tracker, event_id, sig, Outcome::Posted(message_id)), ())
                ==> {
                &&& final(tracker).posts() == posts_after_insert(
                    tracker.posts(),
                    tracker.order(),
                    event_id@,
                    (QuakePost { signature: sig, message_id }),
                )
                &&& final(tracker).order() == remembered(tracker.order().push(event_id@))
            },
{
}

/// A text goes where the message in it goes, and nowhere if it holds none.
pub proof fn lemma_where_texts_go(text: &str, r: Route)
    requires
        call_ensures(route_text, (text,), r),
    ensures
        json_parse(text@) is None ==> r.model() == RouteModel::Ignored,
        json_parse(text@) matches Some(v) ==> r.model() == route_for(v, text@),
{
}

/// Whether a queue is what it becomes when a warning comes in.
pub open spec fn waits_in(
    before: Seq<(Seq<char>, PendingEew)>,
    after: Seq<(Seq<char>, PendingEew)>,
    event: Seq<char>,
    received: u128,
    message: MessageModel,
) -> bool {
    exists|p: PendingEew|
        {
            &&& p.event_id@ == event
            &&& p.received == received
            &&& p.message.model() == message
            &&& after == #[trigger] queued(before, p)
        }
}

/// A text of the feed is handed on as it goes: a warning waits with the time at which it came,
/// a report or a forecast is given to the worker, and the rest changes nothing.
pub proof fn lemma_what_is_done_with_a_text(text: String, received: u128, cursors: &Cursors)
    requires
        json_parse(text@) is Some,
    ensures
        forall|queue: &mut EewQueue, r: SessionStep| #[trigger]
            call_ensures(session_step, (SessionEvent::Text(text), received, queue, cursors), r)
                ==> match route_for(json_parse(text@)->0, text@) {
                RouteModel::Ignored => r is Continue && final(queue)@ == (*queue)@,
                RouteModel::Eew(event, message) => r is Continue && waits_in(
                    (*queue)@,
                    final(queue)@,
                    event,
                    received,
                    message,
                ),
                RouteModel::Worker(message) => {
                    &&& final(queue)@ == (*queue)@
                    &&& r matches SessionStep::Enqueue(m)
                    &&& m.model() == message
                },
            },
        forall|s: &str, queue: &mut EewQueue, r: Option<Incoming>| #[trigger]
            call_ensures(dispatch, (s, received, queue), r) && s@ == text@ ==> match route_for(
                json_parse(text@)->0,
                text@,
            ) {
                RouteModel::Ignored => r is None && final(queue)@ == (*queue)@,
                RouteModel::Eew(event, message) => r is None && waits_in(
                    (*queue)@,
                    final(queue)@,
                    event,
                    received,
                    message,
                ),
                RouteModel::Worker(message) => {
                    &&& final(queue)@ == (*queue)@
                    &&& r matches Some(m)
                    &&& m.model() == message
                },
            },
{
}

/// Whether there is something to catch up on: a message has failed, or of the reports or the
/// forecasts nothing is known yet or the history could not be looked at.
pub open spec fn is_behind(cursors: Cursors) -> bool {
    ||| exists|code: i32| (#[trigger] cursors.state(code)).failed is Some
    ||| !cursors.state(551).primed || cursors.state(551).catch_up_pending
    ||| !cursors.state(552).primed || cursors.state(552).catch_up_pending
}

/// A connection on which nothing comes is given up, one that is closed ends, and from time to
/// time what is left behind is caught up on. None of this changes the warnings that wait.
pub proof fn lemma_what_is_done_with_other_events(received: u128, cursors: &Cursors)
    ensures
        forall|queue: &mut EewQueue, r: SessionStep| #[trigger]
            call_ensures(session_step, (SessionEvent::Idle, received, queue, cursors), r) ==> r
                is Fail && final(queue)@ == (*queue)@,
        forall|queue: &mut EewQueue, r: SessionStep| #[trigger]
            call_ensures(session_step, (SessionEvent::RetryTick, received, queue, cursors), r) ==> {
                &&& is_behind(*cursors) ==> r is CatchUp
                &&& !is_behind(*cursors) ==> r is Continue
                &&& final(queue)@ == (*queue)@
            },
        forall|queue: &mut EewQueue, r: SessionStep| #[trigger]
            call_ensures(session_step, (SessionEvent::Other, received, queue, cursors), r) ==> r
                is Continue && final(queue)@ == (*queue)@,
        forall|queue: &mut EewQueue, r: SessionStep| #[trigger]
            call_ensures(session_step, (SessionEvent::Close, received, queue, cursors), r) ==> r
                is Stop && final(queue)@ == (*queue)@,
        forall|queue: &mut EewQueue, r: SessionStep| #[trigger]
            call_ensures(session_step, (SessionEvent::End, received, queue, cursors), r) ==> r
                is Stop && final(queue)@ == (*queue)@,
        forall|r: bool| #[trigger]
            call_ensures(Cursors::needs_catch_up, (cursors,), r) ==> r == is_behind(*cursors),
{
}

/// The warning that has waited longest is taken, and the others keep waiting.
pub proof fn lemma_which_warning_is_taken(r: Option<PendingEew>)
    ensures
        forall|queue: &mut EewQueue| #[trigger]
            call_ensures(EewQueue::pop, (queue,), r) ==> {
                &&& r is Some <==> (*queue)@.len() > 0
                &&& r matches Some(p) ==> (*queue)@[0] == (p.event_id@, p) && final(queue)@
                    == (*queue)@.subrange(1, (*queue)@.len() as int)
                &&& r is None ==> final(queue)@ == (*queue)@
            },
{
    assert forall|queue: &mut EewQueue| #[trigger]
        call_ensures(EewQueue::pop, (queue,), r) && r is Some implies final(queue)@
        == (*queue)@.subrange(1, (*queue)@.len() as int) by {
        assert((*queue)@.drop_first() =~= (*queue)@.subrange(1, (*queue)@.len() as int));
    }
}

/// A message of one kind that was handled, or could not be, bears on that kind alone, and only
/// if it is a report or a forecast with an ID.
pub proof fn lemma_what_a_message_bears_on(message: &Incoming, handled: bool, c: i32)
    ensures
        forall|cursors: &mut Cursors| #[trigger]
            call_ensures(Cursors::settle, (cursors, message, handled), ()) ==> final(cursors).state(
                c,
            ) == (if c != message.code || message.id is None || !(c == 551 || c == 552) {
                cursors.state(c)
            } else if handled {
                after_handled(cursors.state(c), message.id->0@)
            } else {
                after_failed(cursors.state(c), message.id->0@)
            }),
        forall|cursors: &mut Cursors| #[trigger]
            call_ensures(Cursors::record_handled, (cursors, message), ()) ==> final(cursors).state(
                c,
            ) == (if c != message.code || message.id is None || !(c == 551 || c == 552) {
                cursors.state(c)
            } else {
                after_handled(cursors.state(c), message.id->0@)
            }),
        forall|cursors: &mut Cursors| #[trigger]
            call_ensures(Cursors::record_failed, (cursors, message), ()) ==> final(cursors).state(
                c,
            ) == (if c != message.code || message.id is None || !(c == 551 || c == 552) {
                cursors.state(c)
            } else {
                after_failed(cursors.state(c), message.id->0@)
            }),
{
}

/// A message that found no room counts as failed; without a worker nothing goes on.
pub proof fn lemma_what_an_offer_leads_to(message: &Incoming, offer: Offer, r: bool, c: i32)
    ensures
        forall|cursors: &mut Cursors| #[trigger]
            call_ensures(after_offer, (cursors, message, offer), r) ==> {
                &&& r <==> offer is Accepted || offer is Full
                &&& final(cursors).state(c) == (if offer is Full && c == message.code && message.id
                    is Some && (c == 551 || c == 552) {
                    after_failed(cursors.state(c), message.id->0@)
                } else {
                    cursors.state(c)
                })
            },
{
}

/// A new baseline, and a history that is to be looked at again, bear on one kind alone; after a
/// lost connection it is looked at again for the reports and the forecasts.
pub proof fn lemma_what_a_baseline_bears_on(code: i32, id: Option<String>, c: i32)
    ensures
        forall|cursors: &mut Cursors| #[trigger]
            call_ensures(Cursors::rebase, (cursors, code, id), ()) ==> final(cursors).state(c) == (
            if c == code {
                after_rebase(
                    cursors.state(c),
                    match id {
                        Some(s) => Some(s@),
                        None => None,
                    },
                )
            } else {
                cursors.state(c)
            }),
        forall|cursors: &mut Cursors| #[trigger]
            call_ensures(Cursors::mark_catch_up_pending, (cursors, code), ()) ==> final(cursors).state(c) == (if c == code {
                after_pending(cursors.state(c), true)
            } else {
                cursors.state(c)
            }),
        forall|cursors: &mut Cursors| #[trigger]
            call_ensures(Cursors::clear_catch_up_pending, (cursors, code), ()) ==> final(cursors).state(c) == (if c == code {
                after_pending(cursors.state(c), false)
            } else {
                cursors.state(c)
            }),
        forall|cursors: &mut Cursors| #[trigger]
            call_ensures(postpone_catch_up, (cursors,), ()) ==> final(cursors).state(c) == (if c
                == 551 || c == 552 {
                after_pending(cursors.state(c), true)
            } else {
                cursors.state(c)
            }),
        forall|r: Cursors| #[trigger]
            call_ensures(Cursors::new, (), r) ==> {
                let m = r.state(c);
                !m.primed && m.handled is None && m.failed is None && !m.catch_up_pending
            },
{
}

/// Catching up gives the messages of one kind that were missed, and moves what is known of that
/// kind alone; without a history nothing is given, and it is looked at again.
pub proof fn lemma_what_catching_up_gives(
    code: i32,
    items: &[Value],
    r: Vec<Incoming>,
    c: i32,
)
    ensures
        forall|cursors: &mut Cursors| #[trigger]
            call_ensures(catch_up, (cursors, code, Some(items)), r) ==> {
                &&& r@.len() == caught(code, cursors.state(code), views(items@)).len()
                &&& forall|i: int|
                    0 <= i < r@.len() ==> (#[trigger] r@[i]).model() == caught(
                        code,
                        cursors.state(code),
                        views(items@),
                    )[i]
                &&& final(cursors).state(c) == (if c == code {
                    after_history(cursors.state(c), views(items@))
                } else {
                    cursors.state(c)
                })
            },
        forall|cursors: &mut Cursors| #[trigger]
            call_ensures(catch_up, (cursors, code, None), r) ==> {
                &&& r@.len() == 0
                &&& final(cursors).state(c) == (if c == code {
                    after_pending(cursors.state(c), true)
                } else {
                    cursors.state(c)
                })
            },
{
    assert forall|cursors: &mut Cursors| #[trigger]
        call_ensures(catch_up, (cursors, code, Some(items)), r) implies forall|i: int|
        0 <= i < r@.len() ==> (#[trigger] r@[i]).model() == caught(
            code,
            cursors.state(code),
            views(items@),
        )[i] by {
        assert forall|i: int| 0 <= i < r@.len() implies (#[trigger] r@[i]).model() == caught(
            code,
            cursors.state(code),
            views(items@),
        )[i] by {
            assert(models(r@)[i] == r@[i].model());
        }
    }
}

/// What is posted of a report, a warning and a forecast.
pub proof fn lemma_what_is_posted(
    quake: &JmaQuake,
    eew: &Eew,
    tsunami: &Tsunami,
    reason: &str,
    with_image: bool,
    is_test: bool,
    r: Value,
)
    ensures
        call_ensures(build_payload, (quake, reason, with_image, is_test), r) ==> json_view(r)
            == quake_payload(*quake, reason@, with_image, is_test),
        call_ensures(build_eew_payload, (eew, reason, with_image, is_test), r) ==> json_view(r)
            == eew_payload(*eew, reason@, with_image, is_test),
        call_ensures(build_tsunami_payload, (tsunami, is_test), r) ==> json_view(r)
            == tsunami_payload(*tsunami, is_test),
{
}

/// What is added to a payload of the watched places.
pub proof fn lemma_what_is_highlighted(quake: &JmaQuake, eew: &Eew, watched: &[WatchedPoint])
    ensures
        forall|payload: &mut Value| #[trigger]
            call_ensures(highlight_watched_quake, (payload, quake, watched), ()) ==> json_view(
                *final(payload),
            ) == with_watched(
                json_view(*payload),
                "📍 登録地点の震度"@,
                watched_quake_lines(quake.points@, watched@),
            ),
        forall|payload: &mut Value| #[trigger]
            call_ensures(highlight_watched_eew, (payload, eew, watched), ()) ==> json_view(
                *final(payload),
            ) == with_watched(
                json_view(*payload),
                "📍 登録地点の予想震度"@,
                watched_lines_of(*eew, watched@),
            ),
{
}

/// What is written of points, of a magnitude and of a depth.
pub proof fn lemma_what_is_written(
    points: &[Point],
    listed: Option<String>,
    measure: &Measure,
    text: String,
)
    ensures
        call_ensures(fmt_points, (points,), listed) ==> (match groups_text(
            point_items(points@),
            "地点"@,
            Seq::empty(),
        ) {
            Some(s) => listed is Some && listed->0@ == s,
            None => listed is None,
        }),
        call_ensures(fmt_magnitude, (measure,), text) ==> text@ == of_magnitude(*measure),
        call_ensures(fmt_depth, (measure,), text) ==> text@ == of_depth(*measure),
{
    reveal_strlit("不明");
}

/// What is drawn of points and of areas, and where.
pub proof fn lemma_what_is_drawn(
    points: &[Point],
    areas: &[EewArea],
    stations: &[ObservationStation],
    pref: &str,
    addr: &str,
    markers: Vec<Marker>,
    at: Option<(Real, Real)>,
)
    ensures
        call_ensures(points_to_markers, (points, stations), markers) ==> markers@ == point_markers(
            points@,
            stations@,
        ),
        call_ensures(eew_areas_to_markers, (areas,), markers) ==> markers@ == area_markers(areas@),
        call_ensures(observation_point_coord, (stations, pref, addr), at) ==> at == station_coord(
            stations@,
            pref@,
            addr@,
        ),
{
}

/// A map of a report shows its hypocenter, its largest intensity and its points; one of a
/// warning its hypocenter, its largest forecast and its areas.
pub proof fn lemma_what_maps_show(
    quake: &JmaQuake,
    eew: &Eew,
    stations: &[ObservationStation],
    attach_map: bool,
    r: MapRequest,
)
    ensures
        call_ensures(quake_map, (quake, stations, attach_map), r) ==> r.model() == map_for(
            attach_map,
            quake.earthquake.hypocenter,
            quake.earthquake.max_scale,
            point_markers(quake.points@, stations@),
        ),
        call_ensures(eew_map, (eew, attach_map), r) ==> r.model() == map_for(
            attach_map,
            eew.earthquake.hypocenter,
            crate::intensity::forecast_max(eew.areas@),
            area_markers(eew.areas@),
        ),
{
}

/// A message is posted with a request that waits for its ID, and edited by that ID; an attempt
/// leads to the step that the reply calls for.
pub proof fn lemma_how_messages_are_sent(
    webhook: &str,
    id: &str,
    payload: &Value,
    with_image: bool,
    url: String,
    r: Value,
)
    ensures
        call_ensures(post_url, (webhook,), url) ==> url@ == webhook@ + "?wait=true"@,
        call_ensures(edit_url, (webhook, id), url) ==> url@ == webhook@ + "/messages/"@ + id@,
        call_ensures(edit_payload, (payload, with_image), r) ==> json_view(r) == edited(
            json_view(*payload),
            with_image,
        ),
{
}

/// What is done after an attempt is what the reply calls for.
pub proof fn lemma_what_follows_an_attempt(
    state: SendState,
    reply: Reply,
    retry: Retry,
    what: &str,
    r: SendStep,
)
    requires
        call_ensures(after_attempt, (state, reply, retry, what), r),
    ensures
        r.model() == Some(step_for(state, reply, retry, what@)),
{
}

/// The color of an embed is that of the markers, with eight bits for each of red, green and
/// blue.
pub proof fn lemma_colors_go_together(scale: i32, color: u32, rgb: (u8, u8, u8))
    requires
        call_ensures(embed_color, (scale,), color),
        call_ensures(marker_rgb, (scale,), rgb),
    ensures
        color == 65536 * rgb.0 + 256 * rgb.1 + rgb.2,
{
}

/// A forecast without an upper limit is called by its lower one "or more"; every other by the
/// name of its intensity.
pub proof fn lemma_what_forecasts_are_called(scale: i32, unbounded: bool, r: String)
    requires
        call_ensures(eew_scale_label, (scale, unbounded), r),
    ensures
        unbounded ==> r@ == scale_text(scale) + "程度以上"@,
        !unbounded ==> r@ == scale_text(scale),
        forall|s: &str| #[trigger]
            call_ensures(scale_label, (scale,), s) ==> s@ == scale_text(scale),
{
}

/// A day is written as the one that so many seconds after the start of 1970 lie in.
pub proof fn lemma_which_day_it_is(seconds: u64, r: String)
    requires
        call_ensures(utc_date, (seconds,), r),
    ensures
        exists|year: int, month: int, day: int|
            {
                &&& year >= 1970
                &&& 1 <= month <= 12
                &&& 1 <= day <= days_in(year, month)
                &&& day_number(year, month, day) * 86_400 <= seconds < (day_number(
                    year,
                    month,
                    day,
                ) + 1) * 86_400
                &&& r@ == #[trigger] date_text(year, month, day)
            },
{
    let (year, month, day) = choose|year: int, month: int, day: int|
        {
            &&& is_date(year, month, day)
            &&& day_number(year, month, day) == seconds / 86_400
            &&& r@ == #[trigger] date_text(year, month, day)
        };
    let s = seq![4int, 6, 9, 11];
    assert(s[0] == 4 && s[1] == 6 && s[2] == 9 && s[3] == 11);
    assert(1 <= day <= days_in(year, month));
}

} // verus!
