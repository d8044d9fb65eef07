//! What is done about a report: whether it is announced, with which map, and whether it is
//! posted anew, takes the place of an earlier message, or is dropped.

use serde_json::Value;
use vstd::prelude::*;

use crate::config::WatchedPoint;
use crate::discord::{
    build_eew_payload, build_payload, build_tsunami_payload, eew_payload, highlight_watched_eew,
    highlight_watched_quake, quake_payload, tsunami_payload, watched_lines_of,
    watched_quake_lines, with_watched, WATCHED_EEW_TITLE, WATCHED_QUAKE_TITLE,
};
use crate::geo::{
    area_markers, eew_areas_to_markers, point_markers, points_to_markers, Marker,
    ObservationStation,
};
use crate::intensity::{
    best_reading, decide, decide_eew, eew_max_scale, eew_reason, eew_summary, forecast,
    forecast_max, forecast_summary, grade_rank, observed, quake_notified, tsunami_grade_rank,
    RegionScales,
};
use crate::json::{json_view, JsonView};
use crate::model::{on_globe, Eew, Hypocenter, JmaQuake, Tsunami, TsunamiArea};
use crate::tracker::{
    keys, lemma_only_position, lemma_position, lemma_with_entry, position, posts_after_edit,
    posts_after_insert, remembered, signature, signature_of, with_entry, with_mark, EewTracker,
    QuakeEntry, QuakePost, QuakeTracker, SeenIds, SEEN_ID_CAPACITY,
};

verus! {

/// Which map goes with a notice.
#[derive(Debug)]
pub enum MapRequest {
    /// None.
    Nothing,
    /// One with an epicenter, and the markers around it.
    Quake { epicenter: Marker, markers: Vec<Marker> },
    /// One with markers alone.
    Markers { markers: Vec<Marker> },
}

/// Which map goes with a notice, by what the lists hold.
pub ghost enum MapModel {
    Nothing,
    Quake(Marker, Seq<Marker>),
    Markers(Seq<Marker>),
}

impl MapRequest {
    /// Which map this asks for.
    pub open spec fn model(self) -> MapModel {
        match self {
            MapRequest::Nothing => MapModel::Nothing,
            MapRequest::Quake { epicenter, markers } => MapModel::Quake(epicenter, markers@),
            MapRequest::Markers { markers } => MapModel::Markers(markers@),
        }
    }
}

/// Which map goes with a notice: none if none is wanted, one with the epicenter if it is
/// known, and else one with the markers, if there are any.
pub open spec fn map_for(
    attach_map: bool,
    hypocenter: Hypocenter,
    scale: i32,
    markers: Seq<Marker>,
) -> MapModel {
    if !attach_map {
        MapModel::Nothing
    } else if on_globe(hypocenter.latitude, hypocenter.longitude) {
        MapModel::Quake(
            Marker { latitude: hypocenter.latitude, longitude: hypocenter.longitude, scale },
            markers,
        )
    } else if markers.len() == 0 {
        MapModel::Nothing
    } else {
        MapModel::Markers(markers)
    }
}

fn request_map(attach_map: bool, hypocenter: &Hypocenter, scale: i32, markers: Vec<Marker>) -> (r:
    MapRequest)
    ensures
        r.model() == map_for(attach_map, *hypocenter, scale, markers@),
{
    if !attach_map {
        MapRequest::Nothing
    } else if hypocenter.has_valid_coords() {
        MapRequest::Quake {
            epicenter: Marker {
                latitude: hypocenter.latitude,
                longitude: hypocenter.longitude,
                scale,
            },
            markers,
        }
    } else if markers.len() == 0 {
        MapRequest::Nothing
    } else {
        MapRequest::Markers { markers }
    }
}

/// The map that goes with an earthquake report.
pub fn quake_map(quake: &JmaQuake, stations: &[ObservationStation], attach_map: bool) -> (r:
    MapRequest)
    ensures
        r.model() == map_for(
            attach_map,
            quake.earthquake.hypocenter,
            quake.earthquake.max_scale,
            point_markers(quake.points@, stations@),
        ),
{
    let markers = points_to_markers(quake.points.as_slice(), stations);
    request_map(
        attach_map,
        &quake.earthquake.hypocenter,
        quake.earthquake.max_scale,
        markers,
    )
}

/// The map that goes with an early warning.
pub fn eew_map(eew: &Eew, attach_map: bool) -> (r: MapRequest)
    ensures
        r.model() == map_for(
            attach_map,
            eew.earthquake.hypocenter,
            forecast_max(eew.areas@),
            area_markers(eew.areas@),
        ),
{
    let markers = eew_areas_to_markers(eew.areas.as_slice());
    request_map(
        attach_map,
        &eew.earthquake.hypocenter,
        eew_max_scale(eew.areas.as_slice()),
        markers,
    )
}

/// What is done with a payload.
#[derive(Debug)]
pub enum Action {
    /// It shows nothing new.
    Skip,
    /// It is posted, and nothing is remembered of it.
    Send,
    /// It takes the place of a message.
    Edit(String),
    /// It is posted, and the message is remembered.
    Post,
}

/// What is done with a payload, by what the texts hold.
pub ghost enum ActionModel {
    Skip,
    Send,
    Edit(Seq<char>),
    Post,
}

impl Action {
    /// What is done.
    pub open spec fn model(self) -> ActionModel {
        match self {
            Action::Skip => ActionModel::Skip,
            Action::Send => ActionModel::Send,
            Action::Edit(id) => ActionModel::Edit(id@),
            Action::Post => ActionModel::Post,
        }
    }
}

/// A payload that is ready to be sent.
#[derive(Debug)]
pub struct Notice {
    pub payload: Value,
    pub signature: u64,
    pub action: Action,
}

/// What became of a payload.
#[derive(Debug)]
pub enum Outcome {
    /// It was not sent.
    Failed,
    /// It took the place of a message.
    Edited,
    /// It was posted as the message with this ID.
    Posted(String),
}

/// What is done with a payload after what was posted before: it is posted if nothing was, and
/// else takes the place of the message, unless it shows the same.
pub open spec fn action_after(post: Option<QuakePost>, sig: u64) -> ActionModel {
    match post {
        None => ActionModel::Post,
        Some(p) => if p.signature == sig {
            ActionModel::Skip
        } else {
            ActionModel::Edit(p.message_id@)
        },
    }
}

fn decide_action(post: &Option<QuakePost>, sig: u64) -> (r: Action)
    ensures
        r.model() == action_after(*post, sig),
{
    match post {
        None => Action::Post,
        Some(p) => if p.signature == sig {
            Action::Skip
        } else {
            Action::Edit(p.message_id.clone())
        },
    }
}

/// What an earthquake report shows, with the watched places.
pub open spec fn quake_view(
    quake: JmaQuake,
    reason: Seq<char>,
    watched: Seq<WatchedPoint>,
    with_image: bool,
    is_test: bool,
) -> JsonView {
    with_watched(
        quake_payload(quake, reason, with_image, is_test),
        WATCHED_QUAKE_TITLE@,
        watched_quake_lines(quake.points@, watched),
    )
}

/// The message of an entry: that of the prompt report, or that of the detailed ones.
pub open spec fn slot(entry: QuakeEntry, prompt: bool) -> Option<QuakePost> {
    if prompt {
        entry.prompt
    } else {
        entry.detail
    }
}

/// An entry with another message in one of its places.
pub open spec fn with_slot(
    entry: QuakeEntry,
    prompt: bool,
    post: Option<QuakePost>,
) -> QuakeEntry {
    if prompt {
        QuakeEntry { prompt: post, detail: entry.detail }
    } else {
        QuakeEntry { prompt: entry.prompt, detail: post }
    }
}

/// The entry of an earthquake, once it has one.
pub open spec fn entry_of(entries: Seq<(Seq<char>, QuakeEntry)>, key: Seq<char>) -> QuakeEntry {
    let kept = with_entry(entries, key);
    kept[position(kept, key)->0].1
}

/// Prepares an earthquake report for sending.
///
/// Without a time the earthquake cannot be recognised again, and the report is posted as it
/// is. Else the prompt report and the detailed ones each have a message of their own.
pub fn prepare_quake(
    tracker: &mut QuakeTracker,
    quake: &JmaQuake,
    reason: &str,
    watched: &[WatchedPoint],
    with_image: bool,
    is_test: bool,
) -> (r: Notice)
    requires
        old(tracker).wf(),
    ensures
        final(tracker).wf(),
        json_view(r.payload) == quake_view(*quake, reason@, watched@, with_image, is_test),
        r.signature == signature(json_view(r.payload)),
        ({
            let key = quake.earthquake.time@;
            if key.len() == 0 {
                r.action.model() == ActionModel::Send && final(tracker)@ == old(tracker)@
            } else {
                &&& final(tracker)@ == with_entry(old(tracker)@, key)
                &&& r.action.model() == action_after(
                    slot(entry_of(old(tracker)@, key), quake.issue.prompt()),
                    r.signature,
                )
            }
        }),
{
    let mut payload = build_payload(quake, reason, with_image, is_test);
    highlight_watched_quake(&mut payload, quake, watched);
    let sig: u64 = signature_of(&payload);
    let key = quake.earthquake.time.as_str();
    if key.is_empty() {
        return Notice { payload, signature: sig, action: Action::Send };
    }
    let ghost kept = with_entry(tracker@, key@);
    let entry = tracker.entry(key);
    let action = if quake.issue.is_prompt() {
        decide_action(&entry.prompt, sig)
    } else {
        decide_action(&entry.detail, sig)
    };
    proof {
        lemma_position(kept, key@);
        let i = position(kept, key@)->0;
        assert(kept.update(i, kept[i]) =~= kept);
    }
    Notice { payload, signature: sig, action }
}

/// The message that is remembered after an attempt.
pub open spec fn post_after(
    post: Option<QuakePost>,
    sig: u64,
    outcome: Outcome,
) -> Option<QuakePost> {
    match outcome {
        Outcome::Failed => post,
        Outcome::Edited => match post {
            Some(p) => Some(QuakePost { signature: sig, message_id: p.message_id }),
            None => None,
        },
        Outcome::Posted(message_id) => Some(QuakePost { signature: sig, message_id }),
    }
}

/// What is remembered of earthquakes after an attempt. An earthquake without a time is not.
pub open spec fn quakes_after(
    entries: Seq<(Seq<char>, QuakeEntry)>,
    key: Seq<char>,
    prompt: bool,
    sig: u64,
    outcome: Outcome,
) -> Seq<(Seq<char>, QuakeEntry)> {
    if key.len() == 0 {
        entries
    } else {
        let kept = with_entry(entries, key);
        let i = position(kept, key)->0;
        let post = post_after(slot(kept[i].1, prompt), sig, outcome);
        kept.update(i, (key, with_slot(kept[i].1, prompt, post)))
    }
}

/// Notes what became of an earthquake report. Only what was sent is remembered.
pub fn record_quake(tracker: &mut QuakeTracker, quake: &JmaQuake, sig: u64, outcome: Outcome)
    requires
        old(tracker).wf(),
    ensures
        final(tracker).wf(),
        final(tracker)@ == quakes_after(
            old(tracker)@,
            quake.earthquake.time@,
            quake.issue.prompt(),
            sig,
            outcome,
        ),
{
    let key = quake.earthquake.time.as_str();
    if key.is_empty() {
        return;
    }
    let is_prompt = quake.issue.is_prompt();
    let entry = tracker.entry(key);
    if is_prompt {
        note_post(&mut entry.prompt, sig, outcome);
    } else {
        note_post(&mut entry.detail, sig, outcome);
    }
}

fn note_post(post: &mut Option<QuakePost>, sig: u64, outcome: Outcome)
    ensures
        *final(post) == post_after(*old(post), sig, outcome),
{
    match outcome {
        Outcome::Failed => {},
        Outcome::Edited => {
            if let Some(p) = post {
                p.signature = sig;
            }
        },
        Outcome::Posted(message_id) => {
            *post = Some(QuakePost { signature: sig, message_id });
        },
    }
}

/// A report that was posted is not posted again as long as it shows the same, and takes the
/// place of its message once it shows something else. One that could not be sent is treated
/// as before. The other report about the earthquake keeps its own message.
pub proof fn lemma_posted_once(
    tracker: QuakeTracker,
    key: Seq<char>,
    prompt: bool,
    sig: u64,
    id: String,
    other: u64,
)
    requires
        tracker.wf(),
        key.len() > 0,
        other != sig,
    ensures
        ({
            let before = entry_of(tracker@, key);
            let posted = entry_of(
                quakes_after(tracker@, key, prompt, sig, Outcome::Posted(id)),
                key,
            );
            let edited = entry_of(quakes_after(tracker@, key, prompt, sig, Outcome::Edited), key);
            let failed = entry_of(quakes_after(tracker@, key, prompt, sig, Outcome::Failed), key);
            &&& action_after(slot(posted, prompt), sig) == ActionModel::Skip
            &&& action_after(slot(posted, prompt), other) == ActionModel::Edit(id@)
            &&& slot(posted, !prompt) == slot(before, !prompt)
            &&& slot(before, prompt) matches Some(p) ==> {
                &&& action_after(slot(edited, prompt), sig) == ActionModel::Skip
                &&& action_after(slot(edited, prompt), other) == ActionModel::Edit(p.message_id@)
            }
            &&& failed == before
        }),
{
    lemma_entry_after(tracker, key, prompt, sig, Outcome::Posted(id));
    lemma_entry_after(tracker, key, prompt, sig, Outcome::Edited);
    lemma_entry_after(tracker, key, prompt, sig, Outcome::Failed);
}

pub(crate) proof fn lemma_entry_after(
    tracker: QuakeTracker,
    key: Seq<char>,
    prompt: bool,
    sig: u64,
    outcome: Outcome,
)
    requires
        tracker.wf(),
        key.len() > 0,
    ensures
        ({
            let before = entry_of(tracker@, key);
            entry_of(quakes_after(tracker@, key, prompt, sig, outcome), key) == with_slot(
                before,
                prompt,
                post_after(slot(before, prompt), sig, outcome),
            )
        }),
{
    lemma_with_entry(tracker, key);
    let kept = with_entry(tracker@, key);
    let i = position(kept, key)->0;
    let after = quakes_after(tracker@, key, prompt, sig, outcome);
    assert(keys(after) =~= keys(kept));
    lemma_only_position(after, i);
}

/// The prompt report and the detailed ones do not touch each other's message.
pub proof fn lemma_prompt_and_detail_are_apart(
    entry: QuakeEntry,
    prompt: bool,
    post: Option<QuakePost>,
)
    ensures
        slot(with_slot(entry, prompt, post), prompt) == post,
        slot(with_slot(entry, prompt, post), !prompt) == slot(entry, !prompt),
{
}

/// What is done about an early warning.
#[derive(Debug)]
pub enum EewDecision {
    /// Nothing.
    Ignore,
    /// Its withdrawal is announced.
    Withdraw,
    /// It is announced, for this reason.
    Announce(String),
}

/// What is done about an early warning, by what the texts hold.
pub ghost enum EewModel {
    Ignore,
    Withdraw,
    Announce(Seq<char>),
}

impl EewDecision {
    /// What is done.
    pub open spec fn model(self) -> EewModel {
        match self {
            EewDecision::Ignore => EewModel::Ignore,
            EewDecision::Withdraw => EewModel::Withdraw,
            EewDecision::Announce(reason) => EewModel::Announce(reason@),
        }
    }
}

/// What is done about an early warning.
///
/// One without an event is passed over. A withdrawal is announced if the warning was. A
/// warning is announced if it reaches what is announced, and also if an earlier one about
/// the same event was: else what is shown would stay too grave.
pub open spec fn eew_decision(
    eew: Eew,
    posted: bool,
    scales: RegionScales,
    other: i32,
    is_test: bool,
) -> EewModel {
    if eew.issue.event_id@.len() == 0 {
        EewModel::Ignore
    } else if eew.cancelled {
        if is_test || posted {
            EewModel::Withdraw
        } else {
            EewModel::Ignore
        }
    } else if best_reading(forecast(eew.areas@), scales, other) is Some {
        EewModel::Announce(eew_reason(eew.areas@, scales, other))
    } else if posted {
        EewModel::Announce(forecast_summary(eew.areas@, forecast_max(eew.areas@)))
    } else {
        EewModel::Ignore
    }
}

/// Decides what is done about an early warning.
pub fn judge_eew(
    tracker: &EewTracker,
    eew: &Eew,
    region_min_scales: &RegionScales,
    other_min_scale: i32,
    is_test: bool,
) -> (r: EewDecision)
    ensures
        r.model() == eew_decision(
            *eew,
            tracker.lookup(eew.issue.event_id@) is Some,
            *region_min_scales,
            other_min_scale,
            is_test,
        ),
{
    let event_id = eew.issue.event_id.as_str();
    if event_id.is_empty() {
        return EewDecision::Ignore;
    }
    let posted = tracker.contains(event_id);
    if eew.cancelled {
        return if is_test || posted {
            EewDecision::Withdraw
        } else {
            EewDecision::Ignore
        };
    }
    let areas = eew.areas.as_slice();
    let decision = decide_eew(areas, region_min_scales, other_min_scale);
    if decision.notify {
        EewDecision::Announce(decision.reason)
    } else if posted {
        EewDecision::Announce(eew_summary(areas))
    } else {
        EewDecision::Ignore
    }
}

/// Once a warning about an event was posted, every later one takes its place, however weak
/// the shaking is that it forecasts, and its withdrawal is announced. Before that a warning is
/// announced only if it reaches what is announced, and a withdrawal only as a test.
pub proof fn lemma_posted_warnings_are_kept_up_to_date(
    eew: Eew,
    scales: RegionScales,
    other: i32,
    is_test: bool,
)
    requires
        eew.issue.event_id@.len() > 0,
    ensures
        !eew.cancelled ==> eew_decision(eew, true, scales, other, is_test) is Announce,
        eew.cancelled ==> eew_decision(eew, true, scales, other, is_test) is Withdraw,
        eew_decision(eew, false, scales, other, is_test) is Announce <==> !eew.cancelled
            && best_reading(forecast(eew.areas@), scales, other) is Some,
        eew_decision(eew, false, scales, other, is_test) is Withdraw <==> eew.cancelled && is_test,
{
}

/// What an early warning shows, with the watched places.
pub open spec fn eew_view(
    eew: Eew,
    reason: Seq<char>,
    watched: Seq<WatchedPoint>,
    with_image: bool,
    is_test: bool,
) -> JsonView {
    with_watched(
        eew_payload(eew, reason, with_image, is_test),
        WATCHED_EEW_TITLE@,
        watched_lines_of(eew, watched),
    )
}

/// Prepares an early warning for sending.
pub fn prepare_eew(
    tracker: &EewTracker,
    eew: &Eew,
    reason: &str,
    watched: &[WatchedPoint],
    with_image: bool,
    is_test: bool,
) -> (r: Notice)
    ensures
        json_view(r.payload) == eew_view(*eew, reason@, watched@, with_image, is_test),
        r.signature == signature(json_view(r.payload)),
        r.action.model() == action_after(tracker.lookup(eew.issue.event_id@), r.signature),
{
    let mut payload = build_eew_payload(eew, reason, with_image, is_test);
    highlight_watched_eew(&mut payload, eew, watched);
    let sig: u64 = signature_of(&payload);
    let action = match tracker.posted(eew.issue.event_id.as_str()) {
        Some((message_id, earlier)) => if earlier == sig {
            Action::Skip
        } else {
            Action::Edit(message_id)
        },
        None => Action::Post,
    };
    Notice { payload, signature: sig, action }
}

/// Notes what became of an early warning. Only what was sent is remembered.
pub fn record_eew(tracker: &mut EewTracker, event_id: &str, sig: u64, outcome: Outcome)
    requires
        old(tracker).wf(),
    ensures
        final(tracker).wf(),
        match outcome {
            Outcome::Failed => *final(tracker) == *old(tracker),
            Outcome::Edited => {
                &&& final(tracker).order() == old(tracker).order()
                &&& final(tracker).posts() == posts_after_edit(
                    old(tracker).posts(),
                    event_id@,
                    sig,
                )
            },
            Outcome::Posted(message_id) => {
                &&& final(tracker).order() == remembered(old(tracker).order().push(event_id@))
                &&& final(tracker).posts() == posts_after_insert(
                    old(tracker).posts(),
                    old(tracker).order(),
                    event_id@,
                    (QuakePost { signature: sig, message_id }),
                )
            },
        },
{
    match outcome {
        Outcome::Failed => {},
        Outcome::Edited => {
            tracker.update_signature(event_id, sig);
        },
        Outcome::Posted(message_id) => {
            tracker.insert(event_id, QuakePost { signature: sig, message_id });
        },
    }
}

/// Some area has a grade of warning.
pub open spec fn graded(areas: Seq<TsunamiArea>) -> bool {
    exists|i: int| 0 <= i < areas.len() && grade_rank((#[trigger] areas[i]).grade@) > 0
}

fn any_graded(areas: &[TsunamiArea]) -> (r: bool)
    ensures
        r == graded(areas@),
{
    for i in 0..areas.len()
        invariant
            forall|j: int| 0 <= j < i ==> grade_rank((#[trigger] areas@[j]).grade@) <= 0,
    {
        if tsunami_grade_rank(areas[i].grade.as_str()) > 0 {
            assert(grade_rank(areas@[i as int].grade@) > 0);
            return true;
        }
    }
    false
}

/// A forecast that was handled before.
pub open spec fn repeated(tsunami: Tsunami, seen: Seq<Seq<char>>) -> bool {
    tsunami.id@.len() > 0 && seen.contains(tsunami.id@)
}

/// Prepares a tsunami forecast for sending; `None` if nothing is sent.
///
/// A repeated forecast is dropped. One without any warning is not worth sending, and counts as
/// handled at once; others count once they were sent.
pub fn prepare_tsunami(seen: &mut SeenIds, tsunami: &Tsunami, is_test: bool) -> (r: Option<Value>)
    requires
        old(seen).wf(),
    ensures
        final(seen).wf(),
        if repeated(*tsunami, old(seen)@) {
            r is None && final(seen)@ == old(seen)@
        } else if tsunami.cancelled || graded(tsunami.areas@) {
            &&& r is Some
            &&& json_view(r->0) == tsunami_payload(*tsunami, is_test)
            &&& final(seen)@ == old(seen)@
        } else {
            r is None && final(seen)@ == with_mark(old(seen)@, tsunami.id@)
        },
{
    let id = tsunami.id.as_str();
    if !id.is_empty() && seen.contains(id) {
        return None;
    }
    if tsunami.cancelled || any_graded(tsunami.areas.as_slice()) {
        Some(build_tsunami_payload(tsunami, is_test))
    } else {
        seen.mark(id);
        None
    }
}

/// Notes whether a tsunami forecast was sent. One that was not is not remembered, so that it
/// is tried again.
pub fn record_tsunami(seen: &mut SeenIds, tsunami: &Tsunami, sent: bool)
    requires
        old(seen).wf(),
    ensures
        final(seen).wf(),
        final(seen)@ == (if sent {
            with_mark(old(seen)@, tsunami.id@)
        } else {
            old(seen)@
        }),
{
    if sent {
        seen.mark(tsunami.id.as_str());
    }
}

/// A forecast that could not be sent is still sent when it comes again; one that was sent is
/// not sent again.
pub proof fn lemma_tsunami_sent_once(tsunami: Tsunami, seen: Seq<Seq<char>>)
    requires
        tsunami.id@.len() > 0,
        seen.len() <= SEEN_ID_CAPACITY,
    ensures
        repeated(tsunami, with_mark(seen, tsunami.id@)),
        !seen.contains(tsunami.id@) ==> !repeated(tsunami, seen),
{
    crate::tracker::lemma_marked_is_remembered(seen, tsunami.id@, tsunami.id@);
}

/// The first report that is announced.
pub open spec fn is_first<A>(list: Seq<A>, chosen: Option<usize>, f: spec_fn(A) -> bool) -> bool {
    match chosen {
        Some(k) => {
            &&& k < list.len()
            &&& f(list[k as int])
            &&& forall|j: int| 0 <= j < k ==> !f(#[trigger] list[j])
        },
        None => forall|j: int| 0 <= j < list.len() ==> !f(#[trigger] list[j]),
    }
}

/// An earthquake report that is announced.
pub open spec fn announced(quake: JmaQuake, scales: RegionScales, other: i32) -> bool {
    quake_notified(quake.earthquake.max_scale, observed(quake.points@), scales, other)
}

/// Picks the first earthquake report that is announced.
pub fn pick_quake(quakes: &[JmaQuake], region_min_scales: &RegionScales, other_min_scale: i32) -> (r:
    Option<usize>)
    ensures
        is_first(
            quakes@,
            r,
            |q: JmaQuake| announced(q, *region_min_scales, other_min_scale),
        ),
{
    for i in 0..quakes.len()
        invariant
            forall|j: int|
                0 <= j < i ==> !announced(
                    #[trigger] quakes@[j],
                    *region_min_scales,
                    other_min_scale,
                ),
    {
        let q = &quakes[i];
        let decision = decide(
            &q.earthquake,
            q.points.as_slice(),
            region_min_scales,
            other_min_scale,
        );
        if decision.notify {
            return Some(i);
        }
    }
    None
}

/// Picks the first earthquake report that is announced without a known epicenter, but with
/// markers to draw.
pub fn pick_prompt(
    quakes: &[JmaQuake],
    stations: &[ObservationStation],
    region_min_scales: &RegionScales,
    other_min_scale: i32,
) -> (r: Option<usize>)
    ensures
        is_first(
            quakes@,
            r,
            |q: JmaQuake|
                !on_globe(q.earthquake.hypocenter.latitude, q.earthquake.hypocenter.longitude)
                    && point_markers(q.points@, stations@).len() > 0 && announced(
                    q,
                    *region_min_scales,
                    other_min_scale,
                ),
        ),
{
    let ghost f = |q: JmaQuake|
        !on_globe(q.earthquake.hypocenter.latitude, q.earthquake.hypocenter.longitude)
            && point_markers(q.points@, stations@).len() > 0 && announced(
            q,
            *region_min_scales,
            other_min_scale,
        );
    for i in 0..quakes.len()
        invariant
            f == (|q: JmaQuake|
                !on_globe(q.earthquake.hypocenter.latitude, q.earthquake.hypocenter.longitude)
                    && point_markers(q.points@, stations@).len() > 0 && announced(
                    q,
                    *region_min_scales,
                    other_min_scale,
                )),
            forall|j: int| 0 <= j < i ==> !f(#[trigger] quakes@[j]),
    {
        let q = &quakes[i];
        if !q.earthquake.hypocenter.has_valid_coords() {
            let markers = points_to_markers(q.points.as_slice(), stations);
            if markers.len() > 0 {
                let decision = decide(
                    &q.earthquake,
                    q.points.as_slice(),
                    region_min_scales,
                    other_min_scale,
                );
                if decision.notify {
                    return Some(i);
                }
            }
        }
    }
    None
}

/// Picks the first early warning that is announced and not withdrawn.
pub fn pick_eew(eews: &[Eew], region_min_scales: &RegionScales, other_min_scale: i32) -> (r: Option<
    usize,
>)
    ensures
        is_first(
            eews@,
            r,
            |e: Eew|
                !e.cancelled && best_reading(
                    forecast(e.areas@),
                    *region_min_scales,
                    other_min_scale,
                ) is Some,
        ),
{
    for i in 0..eews.len()
        invariant
            forall|j: int|
                0 <= j < i ==> !(!(#[trigger] eews@[j]).cancelled && best_reading(
                    forecast(eews@[j].areas@),
                    *region_min_scales,
                    other_min_scale,
                ) is Some),
    {
        let e = &eews[i];
        if !e.cancelled {
            let decision = decide_eew(e.areas.as_slice(), region_min_scales, other_min_scale);
            if decision.notify {
                return Some(i);
            }
        }
    }
    None
}

/// Picks the first tsunami forecast that warns and does not lift.
pub fn pick_tsunami(tsunamis: &[Tsunami]) -> (r: Option<usize>)
    ensures
        is_first(tsunamis@, r, |t: Tsunami| !t.cancelled && graded(t.areas@)),
{
    for i in 0..tsunamis.len()
        invariant
            forall|j: int|
                0 <= j < i ==> !(!(#[trigger] tsunamis@[j]).cancelled && graded(
                    tsunamis@[j].areas@,
                )),
    {
        let t = &tsunamis[i];
        if !t.cancelled && any_graded(t.areas.as_slice()) {
            return Some(i);
        }
    }
    None
}

} // verus!
