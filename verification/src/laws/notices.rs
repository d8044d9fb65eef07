//! What is promised of the notices: which reports are sent, in place of what, and with which
//! map.

use vstd::prelude::*;

use crate::config::WatchedPoint;
use crate::discord::{
    eew_payload, quake_payload, watched_lines_of, watched_quake_lines, watched_value,
};
use crate::geo::Marker;
use crate::intensity::{eew_reason, forecast, forecast_max, forecast_summary, RegionScales};
use crate::laws::alerts::{calls_for, lemma_warnings_are_announced_where_they_will_be_felt};
use crate::laws::posts::{
    counted, embed_in, fields_in, has_one_embed, lemma_report_fields, lemma_warning_fields,
    lemma_watched_places_come_before_the_rest, reads, some_coast,
};
use crate::model::{on_globe, Eew, Hypocenter, JmaQuake, Tsunami};
use crate::notices::{
    action_after, eew_decision, eew_view, entry_of, graded, lemma_entry_after, map_for, quake_view,
    quakes_after, repeated, slot, ActionModel, EewModel, MapModel, Outcome,
};
use crate::tracker::{
    blank_entry, keys, lemma_only_position, lemma_position, lemma_push_no_duplicates,
    lemma_value_kept, lemma_value_updated, lemma_with_entry, position, posts_after_edit,
    posts_after_insert, value_of, with_entry, with_mark, with_value, EewTracker, QuakePost,
    QuakeTracker,
};

verus! {

/// A number from minus a limit to a limit, by its bits: without the sign they are no more than
/// those of the limit.
pub open spec fn lies_within(bits: u64, limit: u64) -> bool {
    bits <= limit || 0x8000_0000_0000_0000 <= bits <= 0x8000_0000_0000_0000 + limit
}

/// A zero of either sign.
pub open spec fn is_zero(bits: u64) -> bool {
    bits == 0 || bits == 0x8000_0000_0000_0000
}

/// A hypocenter that is known: 90 degrees of latitude and 180 of longitude at most, and not
/// zero in both.
pub open spec fn is_known(h: Hypocenter) -> bool {
    &&& lies_within(h.latitude.bits, 0x4056_8000_0000_0000)
    &&& lies_within(h.longitude.bits, 0x4066_8000_0000_0000)
    &&& !(is_zero(h.latitude.bits) && is_zero(h.longitude.bits))
}

/// No map goes with a notice if none is wanted. Otherwise a known hypocenter is on it, with the
/// intensity and all markers; without one it shows the markers, if there are any.
pub proof fn lemma_which_map_goes_with_a_notice(
    attach_map: bool,
    hypocenter: Hypocenter,
    scale: i32,
    markers: Seq<Marker>,
)
    ensures
        ({
            let map = map_for(attach_map, hypocenter, scale, markers);
            &&& !attach_map ==> map == MapModel::Nothing
            &&& attach_map && is_known(hypocenter) ==> map == MapModel::Quake(
                Marker {
                    latitude: hypocenter.latitude,
                    longitude: hypocenter.longitude,
                    scale,
                },
                markers,
            )
            &&& attach_map && !is_known(hypocenter) && markers.len() > 0 ==> map
                == MapModel::Markers(markers)
            &&& attach_map && !is_known(hypocenter) && markers.len() == 0 ==> map
                == MapModel::Nothing
        }),
        on_globe(hypocenter.latitude, hypocenter.longitude) == is_known(hypocenter),
{
}

/// What was never posted is posted; what was is left alone as long as it shows the same, and
/// takes the place of its message when it shows something else.
pub proof fn lemma_what_is_done_with_a_payload(post: QuakePost, sig: u64)
    ensures
        action_after(None, sig) == ActionModel::Post,
        post.signature == sig ==> action_after(Some(post), sig) == ActionModel::Skip,
        post.signature != sig ==> action_after(Some(post), sig) == ActionModel::Edit(
            post.message_id@,
        ),
{
}

/// An earthquake that is not remembered has no message yet, so that its report is posted.
pub proof fn lemma_a_new_earthquake_is_posted(
    tracker: QuakeTracker,
    key: Seq<char>,
    prompt: bool,
    sig: u64,
)
    requires
        tracker.wf(),
        tracker.lookup(key) is None,
    ensures
        action_after(slot(entry_of(tracker@, key), prompt), sig) == ActionModel::Post,
{
    lemma_with_entry(tracker, key);
    lemma_position(tracker@, key);
    let longer = tracker@.push((key, blank_entry()));
    let kept = with_entry(tracker@, key);
    assert(kept.last() == (key, blank_entry()));
    lemma_only_position(kept, kept.len() - 1);
}

/// What is noted of one earthquake leaves what is remembered of another as it is, but for the
/// oldest of 256, which makes room for a new one.
pub proof fn lemma_earthquakes_do_not_displace_each_other(
    tracker: QuakeTracker,
    key: Seq<char>,
    prompt: bool,
    sig: u64,
    outcome: Outcome,
    other: Seq<char>,
)
    requires
        tracker.wf(),
        key.len() > 0,
        other != key,
        tracker.lookup(key) is Some || tracker@.len() < 256 || tracker@[0].0 != other,
    ensures
        value_of(quakes_after(tracker@, key, prompt, sig, outcome), other) == tracker.lookup(
            other,
        ),
{
    let entries = tracker@;
    let kept = with_entry(entries, key);
    lemma_with_entry(tracker, key);
    lemma_position(entries, key);
    if position(entries, key) is None {
        let longer = entries.push((key, blank_entry()));
        assert(longer.drop_last() =~= entries);
        lemma_value_kept(entries, longer, other);
        if longer.len() > 256 {
            lemma_value_of_rest(longer, other);
        }
    }
    let i = position(kept, key)->0;
    let after = quakes_after(entries, key, prompt, sig, outcome);
    lemma_value_updated(kept, after, i, other);
}

proof fn lemma_value_of_rest<V>(entries: Seq<(Seq<char>, V)>, key: Seq<char>)
    requires
        entries.len() > 0,
        entries[0].0 != key,
    ensures
        value_of(entries.drop_first(), key) == value_of(entries, key),
{
    lemma_position(entries.drop_first(), key);
}

/// What is remembered of an earthquake after an attempt: the new message if it was posted, the
/// same message with what it shows now if it was edited, and what was before if nothing was
/// sent; the other kind of report keeps its message in any case.
pub proof fn lemma_what_is_remembered_of_an_earthquake(
    tracker: QuakeTracker,
    key: Seq<char>,
    prompt: bool,
    sig: u64,
    id: String,
)
    requires
        tracker.wf(),
        key.len() > 0,
    ensures
        ({
            let before = entry_of(tracker@, key);
            let posted = entry_of(
                quakes_after(tracker@, key, prompt, sig, Outcome::Posted(id)),
                key,
            );
            let edited = entry_of(quakes_after(tracker@, key, prompt, sig, Outcome::Edited), key);
            let failed = entry_of(quakes_after(tracker@, key, prompt, sig, Outcome::Failed), key);
            &&& (if prompt {
                posted.prompt
            } else {
                posted.detail
            }) == Some(QuakePost { signature: sig, message_id: id })
            &&& (if prompt {
                posted.detail
            } else {
                posted.prompt
            }) == (if prompt {
                before.detail
            } else {
                before.prompt
            })
            &&& (if prompt {
                edited.detail
            } else {
                edited.prompt
            }) == (if prompt {
                before.detail
            } else {
                before.prompt
            })
            &&& (if prompt {
                before.prompt
            } else {
                before.detail
            }) matches Some(p) ==> (if prompt {
                edited.prompt
            } else {
                edited.detail
            }) == Some(QuakePost { signature: sig, message_id: p.message_id })
            &&& failed == before
        }),
        quakes_after(tracker@, Seq::empty(), prompt, sig, Outcome::Posted(id)) == tracker@,
{
    lemma_entry_after(tracker, key, prompt, sig, Outcome::Posted(id));
    lemma_entry_after(tracker, key, prompt, sig, Outcome::Edited);
    lemma_entry_after(tracker, key, prompt, sig, Outcome::Failed);
}

/// A report is remembered unless it was, behind the others; of more than 256 the oldest is
/// forgotten.
pub proof fn lemma_the_newest_reports_are_remembered(seen: Seq<Seq<char>>, id: Seq<char>)
    requires
        seen.len() <= 256,
    ensures
        seen.contains(id) ==> with_mark(seen, id) == seen,
        !seen.contains(id) && seen.len() < 256 ==> with_mark(seen, id) == seen + seq![id],
        !seen.contains(id) && seen.len() == 256 ==> with_mark(seen, id) == seen.subrange(1, 256)
            + seq![id],
{
    if !seen.contains(id) {
        assert(seen.push(id) =~= seen + seq![id]);
        if seen.len() == 256 {
            assert(seen.push(id).drop_first() =~= seen.subrange(1, 256) + seq![id]);
        }
    }
}

/// As long as there is room, a posted warning is found under its event, whether one was posted
/// before or not, and those about other events stay.
pub proof fn lemma_warnings_do_not_displace_each_other(
    tracker: EewTracker,
    event_id: Seq<char>,
    post: QuakePost,
    sig: u64,
    other: Seq<char>,
)
    requires
        tracker.wf(),
        tracker.order().len() < 256,
        other != event_id,
    ensures
        ({
            let inserted = posts_after_insert(tracker.posts(), tracker.order(), event_id, post);
            let edited = posts_after_edit(tracker.posts(), event_id, sig);
            &&& value_of(inserted, event_id) == Some(post)
            &&& value_of(inserted, other) == tracker.lookup(other)
            &&& value_of(edited, other) == tracker.lookup(other)
            &&& match tracker.lookup(event_id) {
                Some(p) => value_of(edited, event_id) == Some(
                    QuakePost { signature: sig, message_id: p.message_id },
                ),
                None => edited == tracker.posts(),
            }
        }),
{
    let posts = tracker.posts();
    lemma_position(posts, event_id);
    let inserted = posts_after_insert(posts, tracker.order(), event_id, post);
    assert(inserted == with_value(posts, event_id, post));
    let edited = posts_after_edit(posts, event_id, sig);
    match position(posts, event_id) {
        Some(i) => {
            assert(keys(inserted) =~= keys(posts));
            assert(keys(edited) =~= keys(posts));
            lemma_only_position(inserted, i);
            lemma_only_position(edited, i);
            lemma_value_updated(posts, inserted, i, other);
            lemma_value_updated(posts, edited, i, other);
        },
        None => {
            assert(keys(inserted) =~= keys(posts).push(event_id));
            assert forall|j: int| 0 <= j < keys(posts).len() implies keys(posts)[j] != event_id by {
                assert(keys(posts)[j] == posts[j].0);
            }
            lemma_push_no_duplicates(keys(posts), event_id);
            lemma_only_position(inserted, posts.len() as int);
            assert(inserted.drop_last() =~= posts);
            lemma_value_kept(posts, inserted, other);
        },
    }
}

/// A warning is announced for the reason that it gives, if some area calls for it; if none does
/// and an earlier one was posted, by its largest forecast. One without an event is passed over.
pub proof fn lemma_what_is_announced_of_a_warning(
    eew: Eew,
    posted: bool,
    scales: RegionScales,
    other: i32,
    is_test: bool,
)
    ensures
        ({
            let done = eew_decision(eew, posted, scales, other, is_test);
            let called_for = exists|i: int|
                0 <= i < eew.areas@.len() && calls_for(
                    counted(#[trigger] eew.areas@[i]),
                    eew.areas@[i].pref@,
                    scales,
                    other,
                );
            let event = eew.issue.event_id@.len() > 0;
            &&& !event ==> done == EewModel::Ignore
            &&& event && eew.cancelled ==> done == (if posted || is_test {
                EewModel::Withdraw
            } else {
                EewModel::Ignore
            })
            &&& event && !eew.cancelled && called_for ==> done == EewModel::Announce(
                eew_reason(eew.areas@, scales, other),
            )
            &&& event && !eew.cancelled && !called_for && posted ==> done == EewModel::Announce(
                forecast_summary(eew.areas@, forecast_max(eew.areas@)),
            )
            &&& event && !eew.cancelled && !called_for && !posted ==> done == EewModel::Ignore
        }),
{
    lemma_warnings_are_announced_where_they_will_be_felt(eew.areas@, scales, other);
}

/// A tsunami forecast warns if some coast has one of the three grades.
pub proof fn lemma_which_forecasts_warn(tsunami: Tsunami)
    ensures
        graded(tsunami.areas@) <==> some_coast(tsunami.areas@, "MajorWarning"@) || some_coast(
            tsunami.areas@,
            "Warning"@,
        ) || some_coast(tsunami.areas@, "Watch"@),
{
    let areas = tsunami.areas@;
    if graded(areas) {
        let i = choose|i: int|
            0 <= i < areas.len() && crate::intensity::grade_rank((#[trigger] areas[i]).grade@) > 0;
        assert(some_coast(areas, areas[i].grade@));
    }
    assert forall|g: Seq<char>|
        #[trigger] some_coast(areas, g) && (g == "MajorWarning"@ || g == "Warning"@ || g
            == "Watch"@) implies graded(areas) by {
        let i = choose|i: int| 0 <= i < areas.len() && (#[trigger] areas[i]).grade@ == g;
        assert(crate::intensity::grade_rank(areas[i].grade@) > 0);
    }
}

/// A forecast is a repetition exactly if it has an ID and that is remembered.
pub proof fn lemma_which_forecasts_are_repetitions(tsunami: Tsunami, seen: Seq<Seq<char>>)
    ensures
        repeated(tsunami, seen) <==> tsunami.id@ != Seq::<char>::empty() && exists|i: int|
            0 <= i < seen.len() && #[trigger] seen[i] == tsunami.id@,
{
    if tsunami.id@.len() == 0 {
        assert(tsunami.id@ =~= Seq::<char>::empty());
    }
}

/// A notice of an earthquake is the report of it, and before the fields of that one with the
/// watched places at which it was felt, if there are any.
pub proof fn lemma_notices_show_the_watched_places_first(
    quake: JmaQuake,
    reason: Seq<char>,
    watched: Seq<WatchedPoint>,
    with_image: bool,
    is_test: bool,
)
    ensures
        ({
            let post = quake_payload(quake, reason, with_image, is_test);
            let notice = quake_view(quake, reason, watched, with_image, is_test);
            let lines = watched_quake_lines(quake.points@, watched);
            &&& lines.len() == 0 ==> notice == post
            &&& lines.len() > 0 ==> {
                &&& has_one_embed(notice)
                &&& reads(fields_in(notice)[0], "📍 登録地点の震度"@, watched_value(lines))
                &&& fields_in(notice) == seq![fields_in(notice)[0]] + fields_in(post)
                &&& forall|key: Seq<char>|
                    key != "fields"@ ==> #[trigger] embed_in(notice).member(key) == embed_in(
                        post,
                    ).member(key)
            }
        }),
{
    let post = quake_payload(quake, reason, with_image, is_test);
    let notice = quake_view(quake, reason, watched, with_image, is_test);
    let lines = watched_quake_lines(quake.points@, watched);
    lemma_report_fields(quake, reason, with_image, is_test);
    lemma_watched_places_come_before_the_rest(post, "📍 登録地点の震度"@, lines);
    if lines.len() > 0 {
        assert(fields_in(notice) =~= seq![fields_in(notice)[0]] + fields_in(post));
    }
}

/// A notice of a warning is the warning, and before the fields of that one with the watched
/// places that it bears on, if there are any; a withdrawal shows none.
pub proof fn lemma_warnings_show_the_watched_places_first(
    eew: Eew,
    reason: Seq<char>,
    watched: Seq<WatchedPoint>,
    with_image: bool,
    is_test: bool,
)
    ensures
        ({
            let post = eew_payload(eew, reason, with_image, is_test);
            let notice = eew_view(eew, reason, watched, with_image, is_test);
            let lines = watched_lines_of(eew, watched);
            &&& eew.cancelled || lines.len() == 0 ==> notice == post
            &&& !eew.cancelled && lines.len() > 0 ==> {
                &&& has_one_embed(notice)
                &&& reads(fields_in(notice)[0], "📍 登録地点の予想震度"@, watched_value(lines))
                &&& fields_in(notice) == seq![fields_in(notice)[0]] + fields_in(post)
                &&& forall|key: Seq<char>|
                    key != "fields"@ ==> #[trigger] embed_in(notice).member(key) == embed_in(
                        post,
                    ).member(key)
            }
        }),
{
    let post = eew_payload(eew, reason, with_image, is_test);
    let notice = eew_view(eew, reason, watched, with_image, is_test);
    let lines = watched_lines_of(eew, watched);
    if !eew.cancelled {
        lemma_warning_fields(eew, reason, with_image, is_test);
        lemma_watched_places_come_before_the_rest(post, "📍 登録地点の予想震度"@, lines);
        if lines.len() > 0 {
            assert(fields_in(notice) =~= seq![fields_in(notice)[0]] + fields_in(post));
        }
    }
}

} // verus!
