//! What is promised of the comparison of reports with the list of stations: what is counted,
//! and what is said of it.

use vstd::prelude::*;

use crate::audit::{
    audited, blank_tally, kind_of_report, lemma_every_point_counts_once, matched, missing,
    place_before, place_of, places_in, points_of, section, sections, shelved, slipped, with_point,
    with_points, with_report, PlaceName, Tally,
};
use crate::geo::pieces;
use crate::json::JsonView;
use crate::laws::texts::once_each;
use crate::text::{decimal_text, lemma_precedes_transitive, lemma_precedes_trichotomy, precedes};
use crate::tracker::{keys, lemma_position, position};

verus! {

/// How often a thing occurs in a list.
pub open spec fn times<A>(s: Seq<A>, x: A) -> nat
    decreases s.len(),
{
    if s.len() == 0 {
        0
    } else {
        times(s.drop_last(), x) + (if s.last() == x {
            1nat
        } else {
            0nat
        })
    }
}

/// Whether a point is said to be an area.
pub open spec fn is_area(point: JsonView) -> bool {
    point.member("isArea"@) == Some(JsonView::Bool(true))
}

/// The prefecture and the name that a point gives, empty where it gives no text.
pub open spec fn named_in(point: JsonView) -> PlaceName {
    (
        match point.member("pref"@) {
            Some(JsonView::Text(s)) => s,
            _ => Seq::empty(),
        },
        match point.member("addr"@) {
            Some(JsonView::Text(s)) => s,
            _ => Seq::empty(),
        },
    )
}

/// The places of the points that are areas, or of those that are not, one for each point.
pub open spec fn places_of(points: Seq<JsonView>, areas: bool) -> Seq<PlaceName> {
    points.filter(|p: JsonView| is_area(p) == areas).map_values(|p: JsonView| named_in(p))
}

/// What is counted in so many reports with these points: the points, the areas among them, the
/// different areas, and the other places with how often each occurs.
pub open spec fn counts(t: Tally, reports: nat, points: Seq<JsonView>) -> bool {
    &&& t.reports == reports
    &&& t.points == points.len()
    &&& t.area_count == places_of(points, true).len()
    &&& once_each(places_of(points, true), t.area_names)
    &&& once_each(places_of(points, false), keys(t.names))
    &&& forall|i: int|
        0 <= i < t.names.len() ==> (#[trigger] t.names[i]).1 == times(
            places_of(points, false),
            t.names[i].0,
        )
}

proof fn lemma_one_more_each<A>(all: Seq<A>, once: Seq<A>, x: A)
    requires
        once_each(all, once),
    ensures
        once_each(
            all.push(x),
            if once.contains(x) {
                once
            } else {
                once.push(x)
            },
        ),
{
    let after = if once.contains(x) {
        once
    } else {
        once.push(x)
    };
    let more = all.push(x);
    assert forall|y: A| #[trigger] after.contains(y) <==> more.contains(y) by {
        if after.contains(y) {
            let k = choose|k: int| 0 <= k < after.len() && after[k] == y;
            if k < once.len() {
                assert(once[k] == y);
                assert(once.contains(y));
                let i = choose|i: int| 0 <= i < all.len() && all[i] == y;
                assert(more[i] == y);
            } else {
                assert(more[all.len() as int] == y);
            }
        }
        if more.contains(y) {
            let i = choose|i: int| 0 <= i < more.len() && more[i] == y;
            if i < all.len() {
                assert(all[i] == y);
                assert(all.contains(y));
                assert(once.contains(y));
                let k = choose|k: int| 0 <= k < once.len() && once[k] == y;
                assert(after[k] == y);
            } else if !once.contains(x) {
                assert(after[once.len() as int] == y);
            }
        }
    }
    assert forall|j: int, k: int, i: int|
        #![trigger after[j], after[k], more[i]]
        0 <= j < k < after.len() && 0 <= i < more.len() && more[i] == after[k] implies more.take(
        i,
    ).contains(after[j]) by {
        assert(once[j] == after[j]);
        assert(once.contains(once[j]));
        assert(all.contains(once[j]));
        if i < all.len() {
            assert(all[i] == more[i]);
            assert(more.take(i) =~= all.take(i));
            if k < once.len() {
                assert(once[k] == after[k]);
            } else {
                assert(all.contains(x));
                assert(once.contains(x));
            }
        } else {
            assert(more.take(i) =~= all);
        }
    }
    assert(after.no_duplicates());
}

proof fn lemma_places_grow(points: Seq<JsonView>, p: JsonView, areas: bool)
    ensures
        places_of(points.push(p), areas) == if is_area(p) == areas {
            places_of(points, areas).push(named_in(p))
        } else {
            places_of(points, areas)
        },
{
    reveal(Seq::filter);
    assert(points.push(p).drop_last() =~= points);
    assert(places_of(points.push(p), areas) =~= if is_area(p) == areas {
        places_of(points, areas).push(named_in(p))
    } else {
        places_of(points, areas)
    });
}

proof fn lemma_count_point(t: Tally, reports: nat, points: Seq<JsonView>, p: JsonView)
    requires
        counts(t, reports, points),
    ensures
        counts(with_point(t, p), reports, points.push(p)),
{
    let after = with_point(t, p);
    let place = named_in(p);
    assert(place == place_of(p));
    lemma_places_grow(points, p, true);
    lemma_places_grow(points, p, false);
    if is_area(p) {
        lemma_one_more_each(places_of(points, true), t.area_names, place);
    } else {
        let stations = places_of(points, false);
        let more = stations.push(place);
        assert(more.drop_last() =~= stations);
        lemma_position(t.names, place);
        lemma_one_more_each(stations, keys(t.names), place);
        match position(t.names, place) {
            Some(i) => {
                assert(keys(t.names)[i] == place);
                assert(keys(after.names) =~= keys(t.names));
                assert forall|k: int| 0 <= k < after.names.len() implies (
                #[trigger] after.names[k]).1 == times(more, after.names[k].0) by {
                    assert(keys(t.names)[k] == t.names[k].0);
                }
            },
            None => {
                assert(!keys(t.names).contains(place));
                assert(keys(after.names) =~= keys(t.names).push(place));
                assert(!stations.contains(place));
                lemma_never(stations, place);
                assert forall|k: int| 0 <= k < after.names.len() implies (
                #[trigger] after.names[k]).1 == times(more, after.names[k].0) by {
                    if k < t.names.len() {
                        assert(after.names[k] == t.names[k]);
                    }
                }
            },
        }
    }
}

proof fn lemma_never<A>(s: Seq<A>, x: A)
    requires
        !s.contains(x),
    ensures
        times(s, x) == 0,
    decreases s.len(),
{
    if s.len() > 0 {
        assert(s.contains(s[s.len() - 1]));
        assert forall|i: int| 0 <= i < s.drop_last().len() implies s.drop_last()[i] != x by {
            assert(s.contains(s[i]));
        }
        lemma_never(s.drop_last(), x);
    }
}

proof fn lemma_count_points(t: Tally, reports: nat, a: Seq<JsonView>, b: Seq<JsonView>)
    requires
        counts(t, reports, a),
    ensures
        counts(with_points(t, b), reports, a + b),
    decreases b.len(),
{
    if b.len() == 0 {
        assert(a + b =~= a);
    } else {
        lemma_count_points(t, reports, a, b.drop_last());
        lemma_count_point(with_points(t, b.drop_last()), reports, a + b.drop_last(), b.last());
        assert((a + b.drop_last()).push(b.last()) =~= a + b);
    }
}

/// The kind that a report names, empty where it names none.
pub open spec fn kind_in(report: JsonView) -> Seq<char> {
    match report.member("issue"@) {
        Some(issue) => match issue.member("type"@) {
            Some(JsonView::Text(s)) => s,
            _ => Seq::empty(),
        },
        None => Seq::empty(),
    }
}

/// How many reports are of a kind.
pub open spec fn reports_of(reports: Seq<JsonView>, kind: Seq<char>) -> nat {
    reports.filter(|r: JsonView| kind_in(r) == kind).len()
}

/// The points of all reports of a kind, in order.
pub open spec fn all_points(reports: Seq<JsonView>, kind: Seq<char>) -> Seq<JsonView>
    decreases reports.len(),
{
    if reports.len() == 0 {
        Seq::empty()
    } else {
        let before = all_points(reports.drop_last(), kind);
        match reports.last().member("points"@) {
            Some(JsonView::List(points)) => if kind_in(reports.last()) == kind {
                before + points
            } else {
                before
            },
            _ => before,
        }
    }
}

/// Reports are counted by their kinds, apart from each other: there is one entry for each kind
/// that a report names and for no other, and it counts all reports of that kind and all their
/// points. The entries are in the order of the kinds.
pub proof fn lemma_reports_are_counted_by_kind(reports: Seq<JsonView>, kind: Seq<char>)
    ensures
        forall|i: int|
            0 <= i < audited(reports).len() ==> reports_of(
                reports,
                (#[trigger] audited(reports)[i]).0,
            ) > 0 && counts(
                audited(reports)[i].1,
                reports_of(reports, audited(reports)[i].0),
                all_points(reports, audited(reports)[i].0),
            ),
        reports_of(reports, kind) > 0 <==> exists|i: int|
            0 <= i < audited(reports).len() && (#[trigger] audited(reports)[i]).0 == kind,
        forall|i: int, j: int|
            0 <= i < j < audited(reports).len() ==> precedes(
                (#[trigger] audited(reports)[i]).0,
                (#[trigger] audited(reports)[j]).0,
            ),
    decreases reports.len(),
{
    lemma_every_point_counts_once(reports);
    if reports.len() == 0 {
        reveal(Seq::filter);
    } else {
        let rest = reports.drop_last();
        let report = reports.last();
        let before = audited(rest);
        let after = audited(reports);
        let own = kind_of_report(report);
        let list = points_of(report);
        assert(own == kind_in(report));
        lemma_reports_are_counted_by_kind(rest, kind);
        lemma_every_point_counts_once(rest);
        lemma_position(before, own);
        assert forall|k: Seq<char>| #[trigger] reports_of(reports, k) == reports_of(rest, k) + (
        if own == k {
            1nat
        } else {
            0nat
        }) by {
            reveal(Seq::filter);
        }
        assert(all_points(reports, own) =~= all_points(rest, own) + list);
        match position(before, own) {
            Some(at) => {
                let t = before[at].1;
                let start = Tally { reports: t.reports + 1, ..t };
                assert(counts(t, reports_of(rest, before[at].0), all_points(rest, before[at].0)));
                assert(counts(start, reports_of(reports, own), all_points(rest, own)));
                lemma_count_points(start, reports_of(reports, own), all_points(rest, own), list);
                assert forall|i: int| 0 <= i < after.len() implies reports_of(
                    reports,
                    (#[trigger] after[i]).0,
                ) > 0 && counts(
                    after[i].1,
                    reports_of(reports, after[i].0),
                    all_points(reports, after[i].0),
                ) by {
                    if i != at {
                        assert(after[i] == before[i]);
                        lemma_precedes_trichotomy(own, own);
                        if i < at {
                            assert(precedes(before[i].0, before[at].0));
                        } else {
                            assert(precedes(before[at].0, before[i].0));
                        }
                        assert(after[i].0 != own);
                    }
                }
                assert(after[at].0 == own);
                if exists|i: int| 0 <= i < before.len() && (#[trigger] before[i]).0 == kind {
                    let i = choose|i: int| 0 <= i < before.len() && (#[trigger] before[i]).0
                        == kind;
                    assert(after[i].0 == kind);
                }
            },
            None => {
                let t = blank_tally();
                let start = Tally { reports: t.reports + 1, ..t };
                let e = (own, with_report(t, report));
                if reports_of(rest, own) > 0 {
                    lemma_reports_are_counted_by_kind(rest, own);
                    assert(false);
                }
                lemma_no_points(rest, own);
                lemma_nothing_counted(start);
                lemma_count_points(start, 1, Seq::empty(), list);
                assert(Seq::<JsonView>::empty() + list =~= list);
                assert(all_points(reports, own) =~= list);
                lemma_on_the_shelf(before, e);
                assert forall|i: int| 0 <= i < after.len() implies reports_of(
                    reports,
                    (#[trigger] after[i]).0,
                ) > 0 && counts(
                    after[i].1,
                    reports_of(reports, after[i].0),
                    all_points(reports, after[i].0),
                ) by {
                    assert(after.contains(after[i]));
                    if after[i] != e {
                        let j = choose|j: int| 0 <= j < before.len() && before[j] == after[i];
                        assert(before[j].0 != own);
                    }
                }
                assert(after.contains(e));
                let at = choose|i: int| 0 <= i < after.len() && after[i] == e;
                assert(after[at].0 == own);
                if exists|i: int| 0 <= i < before.len() && (#[trigger] before[i]).0 == kind {
                    let i = choose|i: int| 0 <= i < before.len() && (#[trigger] before[i]).0
                        == kind;
                    assert(before.contains(before[i]));
                    let k = choose|k: int| 0 <= k < after.len() && after[k] == before[i];
                    assert(after[k].0 == kind);
                }
            },
        }
    }
}

proof fn lemma_no_points(reports: Seq<JsonView>, kind: Seq<char>)
    requires
        reports_of(reports, kind) == 0,
    ensures
        all_points(reports, kind) == Seq::<JsonView>::empty(),
    decreases reports.len(),
{
    if reports.len() > 0 {
        reveal(Seq::filter);
        assert(kind_in(reports.last()) != kind);
        lemma_no_points(reports.drop_last(), kind);
    }
}

proof fn lemma_nothing_counted(t: Tally)
    requires
        t.points == 0,
        t.area_count == 0,
        t.names.len() == 0,
        t.area_names.len() == 0,
    ensures
        counts(t, t.reports, Seq::empty()),
{
    reveal(Seq::filter);
    let none = Seq::<JsonView>::empty();
    assert(places_of(none, true).len() == 0);
    assert(places_of(none, false).len() == 0);
    assert(keys(t.names).len() == 0);
}

proof fn lemma_on_the_shelf(list: Seq<(Seq<char>, Tally)>, e: (Seq<char>, Tally))
    ensures
        shelved(list, e).contains(e),
        forall|x: (Seq<char>, Tally)|
            #![trigger shelved(list, e).contains(x)]
            #![trigger list.contains(x)]
            shelved(list, e).contains(x) <==> x == e || list.contains(x),
    decreases list.len(),
{
    let out = shelved(list, e);
    let n = list.len() - 1;
    if list.len() > 0 && precedes(e.0, list.last().0) {
        let rest = list.drop_last();
        let inner = shelved(rest, e);
        lemma_on_the_shelf(rest, e);
        assert(list =~= rest.push(list.last()));
        assert forall|x: (Seq<char>, Tally)| out.contains(x) <==> x == e || list.contains(x) by {
            lemma_pushed(inner, list.last(), x);
            lemma_pushed(rest, list.last(), x);
        }
    } else {
        assert forall|x: (Seq<char>, Tally)| out.contains(x) <==> x == e || list.contains(x) by {
            lemma_pushed(list, e, x);
        }
    }
}

proof fn lemma_pushed<A>(s: Seq<A>, a: A, x: A)
    ensures
        s.push(a).contains(x) <==> s.contains(x) || x == a,
{
    if s.contains(x) {
        let i = choose|i: int| 0 <= i < s.len() && s[i] == x;
        assert(s.push(a)[i] == x);
    }
    assert(s.push(a)[s.len() as int] == a);
    if s.push(a).contains(x) && x != a {
        let i = choose|i: int| 0 <= i < s.push(a).len() && s.push(a)[i] == x;
        assert(s[i] == x);
    }
}

/// The names that are those of stations.
pub open spec fn found(names: Seq<(PlaceName, nat)>, stations: Seq<PlaceName>) -> Seq<
    (PlaceName, nat),
> {
    names.filter(|e: (PlaceName, nat)| (e.0).1.len() > 0 && stations.contains(e.0))
}

/// The names that are not those of stations.
pub open spec fn not_found(names: Seq<(PlaceName, nat)>, stations: Seq<PlaceName>) -> Seq<
    (PlaceName, nat),
> {
    names.filter(|e: (PlaceName, nat)| !stations.contains(e.0))
}

/// A place comes before another if its prefecture does, or its name within the same prefecture.
pub open spec fn earlier(a: PlaceName, b: PlaceName) -> bool {
    if a.0 == b.0 {
        precedes(a.1, b.1)
    } else {
        precedes(a.0, b.0)
    }
}

/// Every name is looked up in the list of stations: those that are there are counted, and
/// those that are not are listed, all of them and with their counts, in the order of places.
pub proof fn lemma_names_are_looked_up(names: Seq<(PlaceName, nat)>, stations: Seq<PlaceName>)
    ensures
        matched(names, stations) == found(names, stations).len(),
        missing(names, stations).to_multiset() == not_found(names, stations).to_multiset(),
        missing(names, stations).len() == not_found(names, stations).len(),
        forall|i: int, j: int|
            0 <= i < j < missing(names, stations).len() ==> !earlier(
                (#[trigger] missing(names, stations)[j]).0,
                (#[trigger] missing(names, stations)[i]).0,
            ),
    decreases names.len(),
{
    broadcast use vstd::seq_lib::group_to_multiset_ensures;

    reveal(Seq::filter);
    if names.len() == 0 {
        assert(not_found(names, stations) =~= names);
    } else {
        let rest = names.drop_last();
        lemma_names_are_looked_up(rest, stations);
        if !stations.contains(names.last().0) {
            lemma_slipped_in(missing(rest, stations), names.last());
        }
    }
}

proof fn lemma_earlier(a: PlaceName, b: PlaceName, c: PlaceName)
    ensures
        place_before(a, b) == earlier(a, b),
        earlier(a, b) ==> !earlier(b, a),
        earlier(a, b) || earlier(b, a) || a == b,
        earlier(a, b) && earlier(b, c) ==> earlier(a, c),
{
    lemma_precedes_trichotomy(a.0, b.0);
    lemma_precedes_trichotomy(a.1, b.1);
    lemma_precedes_trichotomy(b.0, c.0);
    lemma_precedes_trichotomy(a.0, c.0);
    if precedes(a.0, b.0) && precedes(b.0, c.0) {
        lemma_precedes_transitive(a.0, b.0, c.0);
    }
    if precedes(a.1, b.1) && precedes(b.1, c.1) {
        lemma_precedes_transitive(a.1, b.1, c.1);
    }
    lemma_precedes_trichotomy(b.0, a.0);
}

proof fn lemma_slipped_in(list: Seq<(PlaceName, nat)>, e: (PlaceName, nat))
    requires
        forall|i: int, j: int|
            0 <= i < j < list.len() ==> !earlier(
                (#[trigger] list[j]).0,
                (#[trigger] list[i]).0,
            ),
    ensures
        slipped(list, e).len() == list.len() + 1,
        slipped(list, e).to_multiset() == list.to_multiset().insert(e),
        forall|i: int|
            0 <= i < slipped(list, e).len() ==> #[trigger] slipped(list, e)[i] == e
                || list.contains(slipped(list, e)[i]),
        forall|i: int, j: int|
            0 <= i < j < slipped(list, e).len() ==> !earlier(
                (#[trigger] slipped(list, e)[j]).0,
                (#[trigger] slipped(list, e)[i]).0,
            ),
    decreases list.len(),
{
    broadcast use vstd::seq_lib::group_to_multiset_ensures;

    let out = slipped(list, e);
    if list.len() > 0 {
        lemma_earlier(e.0, list.last().0, e.0);
    }
    if list.len() > 0 && place_before(e.0, list.last().0) {
        let rest = list.drop_last();
        let last = list.last();
        let n = list.len() - 1;
        let inner = slipped(rest, e);
        assert(list =~= rest.push(last));
        lemma_slipped_in(rest, e);
        assert(out.to_multiset() =~= rest.to_multiset().insert(e).insert(last));
        assert(list.to_multiset() =~= rest.to_multiset().insert(last));
        assert forall|i: int| 0 <= i < out.len() implies #[trigger] out[i] == e || list.contains(
            out[i],
        ) by {
            if i < n + 1 {
                assert(out[i] == inner[i]);
                if inner[i] != e {
                    let k = choose|k: int| 0 <= k < rest.len() && rest[k] == inner[i];
                    assert(list[k] == out[i]);
                }
            } else {
                assert(list[n] == out[i]);
            }
        }
        assert forall|i: int, j: int| 0 <= i < j < out.len() implies !earlier(
            (#[trigger] out[j]).0,
            (#[trigger] out[i]).0,
        ) by {
            assert(out[i] == inner[i]);
            if j < inner.len() {
                assert(out[j] == inner[j]);
            } else if inner[i] != e {
                let k = choose|k: int| 0 <= k < rest.len() && rest[k] == inner[i];
                assert(list[k] == out[i] && list[n] == out[j]);
            }
        }
    } else {
        assert forall|i: int| 0 <= i < out.len() implies #[trigger] out[i] == e || list.contains(
            out[i],
        ) by {
            if i < list.len() {
                assert(list[i] == out[i]);
            }
        }
        assert forall|i: int, j: int| 0 <= i < j < out.len() implies !earlier(
            (#[trigger] out[j]).0,
            (#[trigger] out[i]).0,
        ) by {
            assert(out[i] == list[i]);
            if j < list.len() {
                assert(out[j] == list[j]);
            } else {
                let last = list[list.len() - 1];
                if i < list.len() - 1 && earlier(e.0, list[i].0) {
                    lemma_earlier(last.0, e.0, list[i].0);
                    assert(!earlier(last.0, list[i].0));
                }
            }
        }
    }
}

/// What is said of a kind begins with one line of counts, and then has one line for each name
/// that is not found, in order.
pub proof fn lemma_what_is_said_of_a_kind(
    kind: Seq<char>,
    t: Tally,
    stations: Seq<PlaceName>,
    i: int,
)
    ensures
        section(kind, t, stations).len() == 1 + not_found(t.names, stations).len(),
        kind.len() > 0 ==> section(kind, t, stations)[0].take(kind.len() as int) == kind,
        section(kind, t, stations)[0] == (if kind.len() == 0 {
            "(不明)"@
        } else {
            kind
        }) + ": 報数="@ + decimal_text(t.reports) + " 地点出現数="@ + decimal_text(t.points)
            + " 固有地点="@ + decimal_text(t.names.len()) + " isArea="@ + decimal_text(t.area_count)
            + " 区域固有名="@ + decimal_text(t.area_names.len()) + " 観測点一致="@ + decimal_text(
            found(t.names, stations).len(),
        ) + " 観測点未一致="@ + decimal_text(not_found(t.names, stations).len()),
        0 <= i < not_found(t.names, stations).len() ==> section(kind, t, stations)[i + 1]
            == "  未一致 "@ + (missing(t.names, stations)[i].0).0 + "\t"@ + (missing(
            t.names,
            stations,
        )[i].0).1 + "\t"@ + decimal_text(missing(t.names, stations)[i].1) + "件"@,
{
    lemma_names_are_looked_up(t.names, stations);
    if kind.len() > 0 {
        assert(section(kind, t, stations)[0].take(kind.len() as int) =~= kind);
    }
}

/// What is said of all kinds is what is said of each, one after another.
pub proof fn lemma_what_is_said_of_all(
    a: Seq<(Seq<char>, Tally)>,
    b: Seq<(Seq<char>, Tally)>,
    one: (Seq<char>, Tally),
    stations: Seq<PlaceName>,
)
    ensures
        sections(Seq::empty(), stations).len() == 0,
        sections(seq![one], stations) == section(one.0, one.1, stations),
        sections(a + b, stations) == sections(a, stations) + sections(b, stations),
    decreases b.len(),
{
    assert(seq![one].drop_last() =~= Seq::<(Seq<char>, Tally)>::empty());
    assert(seq![one].last() == one);
    let none = sections(Seq::<(Seq<char>, Tally)>::empty(), stations);
    assert(none =~= Seq::<Seq<char>>::empty());
    assert(sections(seq![one], stations) == none + section(one.0, one.1, stations));
    assert(sections(seq![one], stations) =~= section(one.0, one.1, stations));
    if b.len() == 0 {
        assert(a + b =~= a);
        assert(sections(a, stations) + sections(b, stations) =~= sections(a, stations));
    } else {
        lemma_what_is_said_of_all(a, b.drop_last(), one, stations);
        assert((a + b).drop_last() =~= a + b.drop_last());
        assert((a + b).last() == b.last());
        assert(sections(a + b, stations) =~= sections(a, stations) + sections(b, stations));
    }
}

/// The lines of a list that are not empty.
pub open spec fn filled(lines: Seq<Seq<char>>) -> Seq<Seq<char>> {
    lines.filter(|line: Seq<char>| line.len() > 0)
}

/// Whether a line is empty or has four columns.
pub open spec fn has_four_columns(line: Seq<char>) -> bool {
    line.len() == 0 || pieces(line, '\t').len() == 4
}

/// A list of stations is read line by line: the places are the first two columns of every line
/// that is not empty, in order, unless one has other than four columns; the first such line is
/// then handed back.
pub proof fn lemma_how_places_are_read(lines: Seq<Seq<char>>)
    ensures
        match places_in(lines) {
            Ok(places) => {
                &&& forall|i: int| 0 <= i < lines.len() ==> has_four_columns(#[trigger] lines[i])
                &&& places.len() == filled(lines).len()
                &&& forall|i: int|
                    0 <= i < places.len() ==> #[trigger] places[i] == (
                        pieces(filled(lines)[i], '\t')[0],
                        pieces(filled(lines)[i], '\t')[1],
                    )
            },
            Err(line) => exists|i: int|
                0 <= i < lines.len() && #[trigger] lines[i] == line && !has_four_columns(line)
                    && forall|j: int| 0 <= j < i ==> has_four_columns(#[trigger] lines[j]),
        },
    decreases lines.len(),
{
    reveal(Seq::filter);
    if lines.len() > 0 {
        let rest = lines.drop_last();
        let n = lines.len() - 1;
        lemma_how_places_are_read(rest);
        assert forall|i: int| 0 <= i < n implies lines[i] == #[trigger] rest[i] by {}
        match places_in(rest) {
            Ok(before) => {
                assert forall|i: int| 0 <= i < n implies has_four_columns(#[trigger] lines[i]) by {
                    assert(rest[i] == lines[i]);
                }
                assert(lines[n] == lines.last());
                match places_in(lines) {
                    Ok(places) => {
                        assert forall|i: int| 0 <= i < places.len() implies #[trigger] places[i]
                            == (
                            pieces(filled(lines)[i], '\t')[0],
                            pieces(filled(lines)[i], '\t')[1],
                        ) by {
                            if i < before.len() {
                                assert(places[i] == before[i]);
                                assert(filled(lines)[i] == filled(rest)[i]);
                            }
                        }
                    },
                    Err(_) => {},
                }
            },
            Err(line) => {
                let i = choose|i: int|
                    0 <= i < rest.len() && #[trigger] rest[i] == line && !has_four_columns(line)
                        && forall|j: int| 0 <= j < i ==> has_four_columns(#[trigger] rest[j]);
                assert(lines[i] == line);
                assert forall|j: int| 0 <= j < i implies has_four_columns(#[trigger] lines[j]) by {
                    assert(rest[j] == lines[j]);
                }
            },
        }
    }
}

} // verus!
