//! What is promised of the announcements: when a report is announced, and what the reason says.

use vstd::prelude::*;

use crate::intensity::{
    best_reading, eew_reason, first_entry, forecast, forecast_max, forecast_scale, forecast_summary,
    full_name, full_names, lemma_best_reading, observed, place_text, pref_key, prefs_with,
    quake_notified, quake_reason, reaches, region_name, scale_text, threshold, RegionScales,
};
use crate::laws::posts::{called, counted, is_largest, lemma_called, lemma_largest};
use crate::laws::texts::{lemma_repetitions_are_left_out, once_each};
use crate::model::{EewArea, Point};
use crate::text::{distinct, joined};

verus! {

/// The entry under a name that counts: the first.
pub open spec fn counts_for(entries: Seq<(String, i32)>, name: Seq<char>, i: int) -> bool {
    &&& 0 <= i < entries.len()
    &&& entries[i].0@ == name
    &&& forall|j: int| 0 <= j < i ==> (#[trigger] entries[j]).0@ != name
}

/// The least intensity that is announced for a prefecture: what is set for the region that it
/// lies in, or the common one.
pub open spec fn is_least_for(
    pref: Seq<char>,
    scales: RegionScales,
    other: i32,
    least: i32,
) -> bool {
    match region_name(pref_key(pref)) {
        Some(region) => {
            ||| exists|i: int|
                #[trigger] counts_for(scales.entries@, region, i) && scales.entries@[i].1 == least
            ||| least == other && forall|i: int|
                0 <= i < scales.entries@.len() ==> (#[trigger] scales.entries@[i]).0@ != region
        },
        None => least == other,
    }
}

/// A region goes by its first entry, and by the common scale where it has none.
pub proof fn lemma_regions_go_by_what_is_set_for_them(
    pref: Seq<char>,
    scales: RegionScales,
    other: i32,
    least: i32,
)
    ensures
        is_least_for(pref, scales, other, least) <==> threshold(pref, scales, other) == least,
{
    match region_name(pref_key(pref)) {
        Some(region) => {
            lemma_first_entry(scales.entries@, region);
            match first_entry(scales.entries@, region) {
                Some(s) => {
                    let i = choose|i: int|
                        #[trigger] counts_for(scales.entries@, region, i) && scales.entries@[i].1
                            == s;
                    assert forall|k: int| #[trigger]
                        counts_for(scales.entries@, region, k) implies k == i by {}
                },
                None => {},
            }
        },
        None => {},
    }
}

proof fn lemma_first_entry(entries: Seq<(String, i32)>, name: Seq<char>)
    ensures
        match first_entry(entries, name) {
            Some(s) => exists|i: int| #[trigger] counts_for(entries, name, i) && entries[i].1 == s,
            None => forall|i: int|
                0 <= i < entries.len() ==> (#[trigger] entries[i]).0@ != name,
        },
    decreases entries.len(),
{
    if entries.len() > 0 {
        if entries[0].0@ == name {
            assert(counts_for(entries, name, 0));
        } else {
            let rest = entries.drop_first();
            lemma_first_entry(rest, name);
            assert forall|i: int| 1 <= i < entries.len() implies #[trigger] entries[i] == rest[i
                - 1] by {}
            match first_entry(rest, name) {
                Some(s) => {
                    let i = choose|i: int| #[trigger] counts_for(rest, name, i) && rest[i].1 == s;
                    assert forall|j: int| 0 <= j < i + 1 implies (#[trigger] entries[j]).0@
                        != name by {
                        if j > 0 {
                            assert(entries[j] == rest[j - 1]);
                        }
                    }
                    assert(entries[i + 1] == rest[i]);
                    assert(counts_for(entries, name, i + 1));
                },
                None => {},
            }
        }
    }
}

/// A point reaches what is announced for its prefecture.
pub open spec fn calls_for(scale: i32, pref: Seq<char>, scales: RegionScales, other: i32) -> bool {
    forall|least: i32| #[trigger] is_least_for(pref, scales, other, least) ==> scale >= least
}

proof fn lemma_calls_for(scale: i32, pref: Seq<char>, scales: RegionScales, other: i32)
    ensures
        calls_for(scale, pref, scales, other) == (scale >= threshold(pref, scales, other)),
{
    let t = threshold(pref, scales, other);
    lemma_regions_go_by_what_is_set_for_them(pref, scales, other, t);
    assert forall|least: i32| #[trigger] is_least_for(pref, scales, other, least) implies least
        == t by {
        lemma_regions_go_by_what_is_set_for_them(pref, scales, other, least);
    }
}

/// The largest intensity among the points that call for an announcement.
pub open spec fn is_best_point(
    points: Seq<Point>,
    scales: RegionScales,
    other: i32,
    best: i32,
) -> bool {
    &&& exists|i: int|
        0 <= i < points.len() && calls_for(
            (#[trigger] points[i]).scale,
            points[i].pref@,
            scales,
            other,
        ) && points[i].scale == best
    &&& forall|i: int|
        0 <= i < points.len() && calls_for(
            (#[trigger] points[i]).scale,
            points[i].pref@,
            scales,
            other,
        ) ==> points[i].scale <= best
}

/// The largest intensity among the areas that call for an announcement.
pub open spec fn is_best_area(
    areas: Seq<EewArea>,
    scales: RegionScales,
    other: i32,
    best: i32,
) -> bool {
    &&& exists|i: int|
        0 <= i < areas.len() && calls_for(
            counted(#[trigger] areas[i]),
            areas[i].pref@,
            scales,
            other,
        ) && counted(areas[i]) == best
    &&& forall|i: int|
        0 <= i < areas.len() && calls_for(
            counted(#[trigger] areas[i]),
            areas[i].pref@,
            scales,
            other,
        ) ==> counted(areas[i]) <= best
}

/// The first four names, and whether there are more; 各地 if there is none.
pub open spec fn four_of(names: Seq<Seq<char>>) -> Seq<char> {
    if names.len() == 0 {
        "各地"@
    } else if names.len() <= 4 {
        joined(names, "・"@)
    } else {
        joined(names.subrange(0, 4), "・"@) + "など"@
    }
}

proof fn lemma_four_of(names: Seq<Seq<char>>)
    ensures
        place_text(names) == four_of(names),
{
    if names.len() > 4 {
        assert(names.take(4) =~= names.subrange(0, 4));
    }
}

/// The prefectures of the points with an intensity, in order.
pub open spec fn prefectures_with(points: Seq<Point>, scale: i32) -> Seq<Seq<char>> {
    points.filter_map(
        |p: Point|
            if p.scale == scale && p.pref@.len() > 0 {
                Some(p.pref@)
            } else {
                None
            },
    )
}

/// The prefectures of the areas with a forecast, by their full names and in order.
pub open spec fn prefectures_forecast(areas: Seq<EewArea>, scale: i32) -> Seq<Seq<char>> {
    areas.filter_map(
        |a: EewArea|
            if counted(a) == scale && a.pref@.len() > 0 {
                Some(full_name(a.pref@))
            } else {
                None
            },
    )
}

proof fn lemma_prefectures_with(points: Seq<Point>, scale: i32)
    ensures
        prefs_with(observed(points), scale) == prefectures_with(points, scale),
    decreases points.len(),
{
    if points.len() > 0 {
        lemma_prefectures_with(points.drop_last(), scale);
        assert(observed(points).drop_last() =~= observed(points.drop_last()));
        assert(observed(points).last() == (points.last().pref@, points.last().scale));
    }
    assert(prefs_with(observed(points), scale) =~= prefectures_with(points, scale));
}

proof fn lemma_prefectures_forecast(areas: Seq<EewArea>, scale: i32)
    ensures
        full_names(prefs_with(forecast(areas), scale)) == prefectures_forecast(areas, scale),
    decreases areas.len(),
{
    if areas.len() > 0 {
        lemma_prefectures_forecast(areas.drop_last(), scale);
        assert(forecast(areas).drop_last() =~= forecast(areas.drop_last()));
        assert(forecast(areas).last() == (areas.last().pref@, forecast_scale(areas.last())));
    }
    assert(full_names(prefs_with(forecast(areas), scale)) =~= prefectures_forecast(areas, scale));
}

proof fn lemma_best_point(points: Seq<Point>, scales: RegionScales, other: i32)
    ensures
        match best_reading(observed(points), scales, other) {
            Some(best) => is_best_point(points, scales, other, best),
            None => forall|i: int|
                0 <= i < points.len() ==> !calls_for(
                    (#[trigger] points[i]).scale,
                    points[i].pref@,
                    scales,
                    other,
                ),
        },
{
    let readings = observed(points);
    lemma_best_reading(readings, scales, other);
    assert forall|i: int| 0 <= i < points.len() implies reaches(readings[i], scales, other)
        == calls_for((#[trigger] points[i]).scale, points[i].pref@, scales, other) by {
        lemma_calls_for(points[i].scale, points[i].pref@, scales, other);
    }
    match best_reading(readings, scales, other) {
        Some(best) => {
            let i = choose|i: int|
                0 <= i < readings.len() && reaches(#[trigger] readings[i], scales, other)
                    && readings[i].1 == best;
            assert(points[i].scale == best);
            assert(calls_for(points[i].scale, points[i].pref@, scales, other));
            assert forall|i: int|
                0 <= i < points.len() && calls_for(
                    (#[trigger] points[i]).scale,
                    points[i].pref@,
                    scales,
                    other,
                ) implies points[i].scale <= best by {
                assert(reaches(readings[i], scales, other));
            }
        },
        None => {
            assert forall|i: int| 0 <= i < points.len() implies !calls_for(
                (#[trigger] points[i]).scale,
                points[i].pref@,
                scales,
                other,
            ) by {
                assert(!reaches(readings[i], scales, other));
            }
        },
    }
}

proof fn lemma_best_area(areas: Seq<EewArea>, scales: RegionScales, other: i32)
    ensures
        match best_reading(forecast(areas), scales, other) {
            Some(best) => is_best_area(areas, scales, other, best),
            None => forall|i: int|
                0 <= i < areas.len() ==> !calls_for(
                    counted(#[trigger] areas[i]),
                    areas[i].pref@,
                    scales,
                    other,
                ),
        },
{
    let readings = forecast(areas);
    lemma_best_reading(readings, scales, other);
    assert forall|i: int| 0 <= i < areas.len() implies reaches(readings[i], scales, other)
        == calls_for(counted(#[trigger] areas[i]), areas[i].pref@, scales, other) by {
        lemma_calls_for(counted(areas[i]), areas[i].pref@, scales, other);
    }
    match best_reading(readings, scales, other) {
        Some(best) => {
            let i = choose|i: int|
                0 <= i < readings.len() && reaches(#[trigger] readings[i], scales, other)
                    && readings[i].1 == best;
            assert(counted(areas[i]) == best);
            assert forall|i: int|
                0 <= i < areas.len() && calls_for(
                    counted(#[trigger] areas[i]),
                    areas[i].pref@,
                    scales,
                    other,
                ) implies counted(areas[i]) <= best by {
                assert(reaches(readings[i], scales, other));
            }
        },
        None => {
            assert forall|i: int| 0 <= i < areas.len() implies !calls_for(
                counted(#[trigger] areas[i]),
                areas[i].pref@,
                scales,
                other,
            ) by {
                assert(!reaches(readings[i], scales, other));
            }
        },
    }
}

/// A report of an earthquake is announced exactly if some point reaches what is announced for
/// its prefecture, or the largest intensity reaches the common scale.
pub proof fn lemma_reports_are_announced_where_they_are_felt(
    max_scale: i32,
    points: Seq<Point>,
    scales: RegionScales,
    other: i32,
)
    ensures
        quake_notified(max_scale, observed(points), scales, other) <==> (max_scale >= other
            || exists|i: int|
            0 <= i < points.len() && calls_for(
                (#[trigger] points[i]).scale,
                points[i].pref@,
                scales,
                other,
            )),
{
    lemma_best_point(points, scales, other);
}

/// The reason names the largest intensity among the points that call for the announcement, and
/// the prefectures that have it, each once; without such a point it names the largest intensity
/// alone, and nothing if the report is not announced.
pub proof fn lemma_reason_names_where_it_was_strongest(
    max_scale: i32,
    points: Seq<Point>,
    scales: RegionScales,
    other: i32,
    best: i32,
) -> (names: Seq<Seq<char>>)
    ensures
        is_best_point(points, scales, other, best) ==> {
            &&& once_each(prefectures_with(points, best), names)
            &&& quake_reason(max_scale, observed(points), scales, other) == four_of(names)
                + "で最大震度"@ + scale_text(best) + "を観測"@
        },
        (forall|i: int|
            0 <= i < points.len() ==> !calls_for(
                (#[trigger] points[i]).scale,
                points[i].pref@,
                scales,
                other,
            )) ==> quake_reason(max_scale, observed(points), scales, other) == if max_scale
            >= other {
            "最大震度"@ + scale_text(max_scale) + "を観測"@
        } else {
            Seq::empty()
        },
{
    lemma_best_point(points, scales, other);
    let names = distinct(prefs_with(observed(points), best));
    lemma_prefectures_with(points, best);
    lemma_repetitions_are_left_out(prefs_with(observed(points), best));
    lemma_four_of(names);
    if is_best_point(points, scales, other, best) {
        let s = best_reading(observed(points), scales, other)->0;
        let i = choose|i: int|
            0 <= i < points.len() && calls_for(
                (#[trigger] points[i]).scale,
                points[i].pref@,
                scales,
                other,
            ) && points[i].scale == best;
        assert(best_reading(observed(points), scales, other) is Some);
        assert(best <= s);
        let k = choose|k: int|
            0 <= k < points.len() && calls_for(
                (#[trigger] points[k]).scale,
                points[k].pref@,
                scales,
                other,
            ) && points[k].scale == s;
        assert(s <= best);
    }
    names
}

/// A warning is announced exactly if the forecast for some area reaches what is announced for
/// its prefecture.
pub proof fn lemma_warnings_are_announced_where_they_will_be_felt(
    areas: Seq<EewArea>,
    scales: RegionScales,
    other: i32,
)
    ensures
        best_reading(forecast(areas), scales, other) is Some <==> exists|i: int|
            0 <= i < areas.len() && calls_for(
                counted(#[trigger] areas[i]),
                areas[i].pref@,
                scales,
                other,
            ),
{
    lemma_best_area(areas, scales, other);
}

/// The reason of a warning names the largest forecast among the areas that call for the
/// announcement, and the prefectures that have it, each once; there is none if the warning is
/// not announced.
pub proof fn lemma_reason_names_where_it_will_be_strongest(
    areas: Seq<EewArea>,
    scales: RegionScales,
    other: i32,
    best: i32,
) -> (names: Seq<Seq<char>>)
    ensures
        is_best_area(areas, scales, other, best) ==> {
            &&& once_each(prefectures_forecast(areas, best), names)
            &&& eew_reason(areas, scales, other) == four_of(names) + "で予想最大震度"@ + called(
                areas,
                best,
            )
        },
        (forall|i: int|
            0 <= i < areas.len() ==> !calls_for(
                counted(#[trigger] areas[i]),
                areas[i].pref@,
                scales,
                other,
            )) ==> eew_reason(areas, scales, other).len() == 0,
{
    lemma_best_area(areas, scales, other);
    let names = lemma_summary(areas, best);
    if is_best_area(areas, scales, other, best) {
        let s = best_reading(forecast(areas), scales, other)->0;
        let i = choose|i: int|
            0 <= i < areas.len() && calls_for(
                counted(#[trigger] areas[i]),
                areas[i].pref@,
                scales,
                other,
            ) && counted(areas[i]) == best;
        assert(best_reading(forecast(areas), scales, other) is Some);
        assert(best <= s);
        let k = choose|k: int|
            0 <= k < areas.len() && calls_for(
                counted(#[trigger] areas[k]),
                areas[k].pref@,
                scales,
                other,
            ) && counted(areas[k]) == s;
        assert(s <= best);
    }
    names
}

proof fn lemma_summary(areas: Seq<EewArea>, scale: i32) -> (names: Seq<Seq<char>>)
    ensures
        once_each(prefectures_forecast(areas, scale), names),
        forecast_summary(areas, scale) == four_of(names) + "で予想最大震度"@ + called(areas, scale),
{
    let all = full_names(prefs_with(forecast(areas), scale));
    lemma_prefectures_forecast(areas, scale);
    lemma_repetitions_are_left_out(all);
    lemma_four_of(distinct(all));
    lemma_called(areas, scale);
    distinct(all)
}

/// A warning is summed up by its largest forecast and the prefectures that have it, whatever is
/// announced.
pub proof fn lemma_warnings_are_summed_up_by_the_largest_forecast(
    areas: Seq<EewArea>,
    largest: i32,
) -> (names: Seq<Seq<char>>)
    requires
        is_largest(areas, largest),
    ensures
        once_each(prefectures_forecast(areas, largest), names),
        forecast_summary(areas, forecast_max(areas)) == four_of(names) + "で予想最大震度"@ + called(
            areas,
            largest,
        ),
{
    lemma_largest(areas, largest);
    lemma_summary(areas, largest)
}

/// The suffix of a prefecture's name does not tell names apart, and nothing else is lost: the
/// last character is left out exactly if it is 都, 府 or 県, but for that of 京都.
pub proof fn lemma_only_the_suffix_is_left_out(name: Seq<char>, c: char)
    ensures
        pref_key(Seq::empty()).len() == 0,
        pref_key(name.push(c)) == (if (c == '都' || c == '府' || c == '県') && name.push(c)
            != "京都"@ {
            name
        } else {
            name.push(c)
        }),
{
    assert(name.push(c).drop_last() =~= name);
}

} // verus!
