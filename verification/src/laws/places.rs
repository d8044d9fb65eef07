//! What is promised of places: where points and areas are drawn, and what a search compares.

use vstd::prelude::*;
use vstd::utf8::*;

use crate::geo::{
    area_markers, columns_of, coord_in, coord_of_pref, data_lines, data_lines_of, half_width,
    is_filler, kept, lemma_maxima, lowercase, match_score, maxima, pieces, placeless, point_markers,
    pref_markers, ranks_before, search_text, shaken, station_coord, station_markers, Found, Marker,
    ObservationStation, Score, PREF_COORDS,
};
use crate::intensity::{full_name, pref_key};
use crate::laws::posts::counted;
use crate::laws::texts::{lemma_repetitions_are_left_out, once_each};
use crate::model::{EewArea, Point};
use crate::text::{
    begins, distinct, is_white, joined, lemma_distinct_push, lemma_precedes_irreflexive,
    lemma_precedes_trichotomy, occurs, precedes,
};
use crate::tracker::{keys, lemma_position, position};

verus! {

/// A station of a name in a prefecture.
pub open spec fn is_station(s: ObservationStation, pref: Seq<char>, name: Seq<char>) -> bool {
    s.name@ == name && pref_key(s.pref@) == pref_key(pref)
}

/// A station is found exactly if one of its name is listed in its prefecture, and it is where
/// the last of these is.
pub proof fn lemma_stations_are_found_by_prefecture_and_name(
    stations: Seq<ObservationStation>,
    pref: Seq<char>,
    name: Seq<char>,
)
    ensures
        match station_coord(stations, pref, name) {
            Some(place) => exists|i: int|
                0 <= i < stations.len() && is_station(#[trigger] stations[i], pref, name) && place
                    == (stations[i].latitude, stations[i].longitude) && forall|j: int|
                    i < j < stations.len() ==> !is_station(#[trigger] stations[j], pref, name),
            None => forall|i: int|
                0 <= i < stations.len() ==> !is_station(#[trigger] stations[i], pref, name),
        },
    decreases stations.len(),
{
    if stations.len() > 0 {
        let rest = stations.drop_last();
        let n = rest.len() as int;
        assert(stations[n] == stations.last());
        if !is_station(stations.last(), pref, name) {
            lemma_stations_are_found_by_prefecture_and_name(rest, pref, name);
            match station_coord(rest, pref, name) {
                Some(place) => {
                    let i = choose|i: int|
                        0 <= i < rest.len() && is_station(#[trigger] rest[i], pref, name) && place
                            == (rest[i].latitude, rest[i].longitude) && forall|j: int|
                            i < j < rest.len() ==> !is_station(#[trigger] rest[j], pref, name);
                    assert(stations[i] == rest[i]);
                    assert forall|j: int| i < j < stations.len() implies !is_station(
                        #[trigger] stations[j],
                        pref,
                        name,
                    ) by {
                        if j < n {
                            assert(rest[j] == stations[j]);
                        }
                    }
                },
                None => {
                    assert forall|j: int| 0 <= j < stations.len() implies !is_station(
                        #[trigger] stations[j],
                        pref,
                        name,
                    ) by {
                        if j < n {
                            assert(rest[j] == stations[j]);
                        }
                    }
                },
            }
        }
    }
}

/// The marker of a point at its own station: a point that is no area, has an intensity and a
/// prefecture, and whose station is listed.
pub open spec fn own_marker(p: Point, stations: Seq<ObservationStation>) -> Option<Marker> {
    if p.is_area || p.scale < 0 || p.pref@.len() == 0 {
        None
    } else {
        match station_coord(stations, p.pref@, p.addr@) {
            Some((latitude, longitude)) => Some(Marker { latitude, longitude, scale: p.scale }),
            None => None,
        }
    }
}

/// What a point adds to its prefecture: a point with an intensity and a prefecture that is an
/// area, or whose station is not listed.
pub open spec fn for_prefecture(p: Point, stations: Seq<ObservationStation>) -> Option<
    (Seq<char>, i32),
> {
    if p.scale >= 0 && p.pref@.len() > 0 && (p.is_area || station_coord(
        stations,
        p.pref@,
        p.addr@,
    ) is None) {
        Some((p.pref@, p.scale))
    } else {
        None
    }
}

/// The names of a list that are prefectures, in order.
pub open spec fn known_prefectures(items: Seq<(Seq<char>, i32)>) -> Seq<Seq<char>> {
    items.filter_map(
        |item: (Seq<char>, i32)|
            if coord_of_pref(item.0) is Some {
                Some(item.0)
            } else {
                None
            },
    )
}

/// The largest value that a list has under a name.
pub open spec fn is_largest_under(
    items: Seq<(Seq<char>, i32)>,
    name: Seq<char>,
    value: i32,
) -> bool {
    &&& items.contains((name, value))
    &&& forall|j: int|
        0 <= j < items.len() && (#[trigger] items[j]).0 == name ==> items[j].1 <= value
}

/// A marker of a prefecture: where it is drawn, with its largest value.
pub open spec fn marks_prefecture(
    m: Marker,
    items: Seq<(Seq<char>, i32)>,
    name: Seq<char>,
) -> bool {
    &&& coord_of_pref(name) == Some((m.latitude, m.longitude))
    &&& is_largest_under(items, name, m.scale)
}

/// One marker for each prefecture of a list, in the order in which they first come.
pub open spec fn one_for_each_prefecture(
    markers: Seq<Marker>,
    items: Seq<(Seq<char>, i32)>,
    names: Seq<Seq<char>>,
) -> bool {
    &&& once_each(known_prefectures(items), names)
    &&& markers.len() == names.len()
    &&& forall|k: int|
        0 <= k < names.len() ==> marks_prefecture(#[trigger] markers[k], items, names[k])
}

proof fn lemma_known_prefectures(items: Seq<(Seq<char>, i32)>)
    ensures
        pref_markers(maxima(items)).len() == distinct(known_prefectures(items)).len(),
        one_for_each_prefecture(
            pref_markers(maxima(items)),
            items,
            distinct(known_prefectures(items)),
        ),
{
    let m = maxima(items);
    lemma_keys_of_maxima(items);
    lemma_pref_markers(m);
    lemma_distinct_known(items);
    let names = distinct(known_prefectures(items));
    assert(known_prefectures(m) == names);
    lemma_repetitions_are_left_out(known_prefectures(items));
    assert forall|k: int| 0 <= k < names.len() implies marks_prefecture(
        #[trigger] pref_markers(m)[k],
        items,
        names[k],
    ) by {
        assert(drawn_from(pref_markers(m)[k], m, known_prefectures(m)[k]));
        let i = choose|i: int|
            0 <= i < m.len() && m[i].0 == names[k] && #[trigger] m[i].1 == pref_markers(m)[k].scale;
        lemma_maxima(items, names[k]);
        lemma_position(m, names[k]);
        let p = position(m, names[k])->0;
        assert(keys(m)[p] == names[k] && keys(m)[i] == names[k]);
        assert(p == i);
    }
}

/// A marker is that of an entry.
spec fn drawn_from(marker: Marker, m: Seq<(Seq<char>, i32)>, name: Seq<char>) -> bool {
    &&& coord_of_pref(name) == Some((marker.latitude, marker.longitude))
    &&& exists|i: int| 0 <= i < m.len() && m[i].0 == name && #[trigger] m[i].1 == marker.scale
}

proof fn lemma_pref_markers(m: Seq<(Seq<char>, i32)>)
    ensures
        pref_markers(m).len() == known_prefectures(m).len(),
        forall|k: int|
            0 <= k < pref_markers(m).len() ==> drawn_from(
                #[trigger] pref_markers(m)[k],
                m,
                known_prefectures(m)[k],
            ),
    decreases m.len(),
{
    if m.len() > 0 {
        let rest = m.drop_last();
        lemma_pref_markers(rest);
        assert(m[rest.len() as int] == m.last());
        let now = pref_markers(m);
        let before = pref_markers(rest);
        let names = known_prefectures(m);
        assert(names =~= if coord_of_pref(m.last().0) is Some {
            known_prefectures(rest).push(m.last().0)
        } else {
            known_prefectures(rest)
        });
        assert forall|k: int| 0 <= k < now.len() implies drawn_from(
            #[trigger] now[k],
            m,
            names[k],
        ) by {
            if k < before.len() {
                assert(now[k] == before[k]);
                assert(names[k] == known_prefectures(rest)[k]);
                let i = choose|i: int|
                    0 <= i < rest.len() && rest[i].0 == names[k] && #[trigger] rest[i].1
                        == before[k].scale;
                assert(m[i] == rest[i]);
                assert(m[i].1 == now[k].scale);
            } else {
                let i = rest.len() as int;
                assert(m[i].1 == now[k].scale);
            }
        }
    }
}

proof fn lemma_keys_of_maxima(items: Seq<(Seq<char>, i32)>)
    ensures
        keys(maxima(items)) == distinct(keys(items)),
    decreases items.len(),
{
    if items.len() > 0 {
        let rest = items.drop_last();
        let before = maxima(rest);
        let (key, value) = items.last();
        lemma_keys_of_maxima(rest);
        lemma_position(before, key);
        assert(keys(items) =~= keys(rest).push(key));
        lemma_distinct_push(keys(rest), key);
        match position(before, key) {
            Some(i) => {
                assert(keys(before)[i] == key);
                assert(keys(before).contains(key));
                assert(keys(maxima(items)) =~= keys(before));
            },
            None => {
                if keys(before).contains(key) {
                    let j = choose|j: int| 0 <= j < keys(before).len() && keys(before)[j] == key;
                    assert(before[j].0 == key);
                }
                assert(keys(maxima(items)) =~= keys(before).push(key));
            },
        }
    } else {
        assert(keys(maxima(items)) =~= distinct(keys(items)));
    }
}

/// The names of a list that are prefectures, by the names alone.
spec fn known_names(names: Seq<Seq<char>>) -> Seq<Seq<char>> {
    names.filter_map(
        |name: Seq<char>|
            if coord_of_pref(name) is Some {
                Some(name)
            } else {
                None
            },
    )
}

proof fn lemma_known_names(items: Seq<(Seq<char>, i32)>)
    ensures
        known_prefectures(items) == known_names(keys(items)),
    decreases items.len(),
{
    if items.len() > 0 {
        lemma_known_names(items.drop_last());
        assert(keys(items).drop_last() =~= keys(items.drop_last()));
        assert(keys(items).last() == items.last().0);
    }
    assert(known_prefectures(items) =~= known_names(keys(items)));
}

proof fn lemma_distinct_names(names: Seq<Seq<char>>)
    ensures
        known_names(distinct(names)) == distinct(known_names(names)),
        forall|x: Seq<char>|
            #[trigger] known_names(distinct(names)).contains(x) <==> coord_of_pref(x) is Some
                && distinct(names).contains(x),
    decreases names.len(),
{
    if names.len() == 0 {
        assert(known_names(distinct(names)) =~= distinct(known_names(names)));
    } else {
        let rest = names.drop_last();
        let x = names.last();
        lemma_distinct_names(rest);
        let d = distinct(rest);
        assert(known_names(names) =~= if coord_of_pref(x) is Some {
            known_names(rest).push(x)
        } else {
            known_names(rest)
        });
        if coord_of_pref(x) is Some {
            lemma_distinct_push(known_names(rest), x);
        }
        if !d.contains(x) {
            assert(d.push(x).drop_last() =~= d);
            assert(known_names(d.push(x)) =~= if coord_of_pref(x) is Some {
                known_names(d).push(x)
            } else {
                known_names(d)
            });
            assert forall|y: Seq<char>|
                #[trigger] known_names(d.push(x)).contains(y) <==> coord_of_pref(y) is Some
                    && d.push(x).contains(y) by {
                lemma_push_contains(d, x, y);
                lemma_push_contains(known_names(d), x, y);
                assert(known_names(d).contains(y) <==> coord_of_pref(y) is Some && d.contains(y));
            }
        }
    }
}

proof fn lemma_push_contains<A>(s: Seq<A>, x: A, y: A)
    ensures
        s.push(x).contains(y) <==> s.contains(y) || y == x,
{
    assert(s.push(x)[s.len() as int] == x);
    if s.contains(y) {
        let i = choose|i: int| 0 <= i < s.len() && s[i] == y;
        assert(s.push(x)[i] == y);
    }
    if s.push(x).contains(y) && y != x {
        let i = choose|i: int| 0 <= i < s.push(x).len() && s.push(x)[i] == y;
        assert(s[i] == y);
    }
}

proof fn lemma_distinct_known(items: Seq<(Seq<char>, i32)>)
    ensures
        known_prefectures(maxima(items)) == distinct(known_prefectures(items)),
{
    lemma_keys_of_maxima(items);
    lemma_known_names(items);
    lemma_known_names(maxima(items));
    lemma_distinct_names(keys(items));
}

/// Every point whose station is listed is drawn there, one marker each and in order; after them
/// every prefecture that another point lies in is drawn once, where prefectures are drawn, with
/// the largest intensity of those points. Nothing else is drawn.
pub proof fn lemma_every_point_is_drawn(
    points: Seq<Point>,
    stations: Seq<ObservationStation>,
) -> (names: Seq<Seq<char>>)
    ensures
        ({
            let own = points.filter_map(|p: Point| own_marker(p, stations));
            let others = points.filter_map(|p: Point| for_prefecture(p, stations));
            let markers = point_markers(points, stations);
            &&& markers.len() == own.len() + names.len()
            &&& markers.subrange(0, own.len() as int) == own
            &&& one_for_each_prefecture(
                markers.subrange(own.len() as int, markers.len() as int),
                others,
                names,
            )
        }),
{
    let own = points.filter_map(|p: Point| own_marker(p, stations));
    let others = points.filter_map(|p: Point| for_prefecture(p, stations));
    lemma_own_markers(points, stations, |p: Point| own_marker(p, stations));
    lemma_others(points, stations, |p: Point| for_prefecture(p, stations));
    lemma_known_prefectures(others);
    let markers = point_markers(points, stations);
    assert(markers.subrange(0, own.len() as int) =~= own);
    assert(markers.subrange(own.len() as int, markers.len() as int) =~= pref_markers(
        maxima(others),
    ));
    distinct(known_prefectures(others))
}

proof fn lemma_own_markers(
    points: Seq<Point>,
    stations: Seq<ObservationStation>,
    f: spec_fn(Point) -> Option<Marker>,
)
    requires
        forall|p: Point| #[trigger] f(p) == own_marker(p, stations),
    ensures
        station_markers(points, stations) == points.filter_map(f),
    decreases points.len(),
{
    if points.len() > 0 {
        lemma_own_markers(points.drop_last(), stations, f);
        assert(f(points.last()) == own_marker(points.last(), stations));
    }
    assert(station_markers(points, stations) =~= points.filter_map(f));
}

proof fn lemma_others(
    points: Seq<Point>,
    stations: Seq<ObservationStation>,
    f: spec_fn(Point) -> Option<(Seq<char>, i32)>,
)
    requires
        forall|p: Point| #[trigger] f(p) == for_prefecture(p, stations),
    ensures
        placeless(points, stations) == points.filter_map(f),
    decreases points.len(),
{
    if points.len() > 0 {
        lemma_others(points.drop_last(), stations, f);
        assert(f(points.last()) == for_prefecture(points.last(), stations));
    }
    assert(placeless(points, stations) =~= points.filter_map(f));
}

/// A point that is an area, or whose station is not listed, is on the map all the same: its
/// prefecture is marked with an intensity that is at least its own, whatever the other points
/// are.
pub proof fn lemma_no_point_is_missing_from_the_map(
    points: Seq<Point>,
    stations: Seq<ObservationStation>,
    i: int,
) -> (k: int)
    requires
        0 <= i < points.len(),
        points[i].scale >= 0,
        points[i].pref@.len() > 0,
        own_marker(points[i], stations) is Some || coord_of_pref(points[i].pref@) is Some,
    ensures
        0 <= k < point_markers(points, stations).len(),
        ({
            let m = point_markers(points, stations)[k];
            match own_marker(points[i], stations) {
                Some(own) => m == own,
                None => {
                    &&& coord_of_pref(points[i].pref@) == Some((m.latitude, m.longitude))
                    &&& m.scale >= points[i].scale
                },
            }
        }),
{
    let f = |p: Point| own_marker(p, stations);
    let g = |p: Point| for_prefecture(p, stations);
    lemma_own_markers(points, stations, f);
    lemma_others(points, stations, g);
    let st = station_markers(points, stations);
    let others = placeless(points, stations);
    let pf = pref_markers(maxima(others));
    match own_marker(points[i], stations) {
        Some(own) => {
            assert(f(points[i]) == Some(own));
            lemma_filter_map_keeps(points, f, i);
            let k = choose|k: int| 0 <= k < st.len() && st[k] == own;
            k
        },
        None => {
            let item = (points[i].pref@, points[i].scale);
            assert(g(points[i]) == Some(item));
            lemma_filter_map_keeps(points, g, i);
            lemma_known_prefectures(others);
            let names = distinct(known_prefectures(others));
            let w = choose|w: int| 0 <= w < others.len() && others[w] == item;
            let known = |x: (Seq<char>, i32)|
                if coord_of_pref(x.0) is Some {
                    Some(x.0)
                } else {
                    None
                };
            assert(known(others[w]) == Some(item.0));
            lemma_filter_map_keeps(others, known, w);
            assert(others.filter_map(known) == known_prefectures(others));
            assert(names.contains(item.0));
            let k = choose|k: int| 0 <= k < names.len() && names[k] == item.0;
            assert(marks_prefecture(pf[k], others, names[k]));
            assert(others[w].1 <= pf[k].scale);
            assert(point_markers(points, stations)[st.len() + k] == pf[k]);
            st.len() + k
        },
    }
}

proof fn lemma_filter_map_keeps<A, B>(s: Seq<A>, f: spec_fn(A) -> Option<B>, i: int)
    requires
        0 <= i < s.len(),
        f(s[i]) is Some,
    ensures
        s.filter_map(f).contains(f(s[i])->0),
    decreases s.len(),
{
    let rest = s.drop_last();
    let before = rest.filter_map(f);
    let now = s.filter_map(f);
    if i == rest.len() {
        assert(now[before.len() as int] == f(s[i])->0);
    } else {
        assert(rest[i] == s[i]);
        lemma_filter_map_keeps(rest, f, i);
        let k = choose|k: int| 0 <= k < before.len() && before[k] == f(s[i])->0;
        assert(now[k] == before[k]);
    }
}

/// What an area of a warning adds to its prefecture, by its full name: an area in which shaking
/// is felt.
pub open spec fn for_forecast(a: EewArea) -> Option<(Seq<char>, i32)> {
    if counted(a) > 0 && a.pref@.len() > 0 {
        Some((full_name(a.pref@), counted(a)))
    } else {
        None
    }
}

/// Every prefecture for which a warning forecasts felt shaking is drawn once, with its largest
/// forecast, and nothing else is.
pub proof fn lemma_every_forecast_is_drawn(areas: Seq<EewArea>) -> (names: Seq<Seq<char>>)
    ensures
        one_for_each_prefecture(
            area_markers(areas),
            areas.filter_map(|a: EewArea| for_forecast(a)),
            names,
        ),
{
    let f = |a: EewArea| for_forecast(a);
    lemma_shaken(areas, f);
    lemma_known_prefectures(shaken(areas));
    distinct(known_prefectures(shaken(areas)))
}

proof fn lemma_shaken(areas: Seq<EewArea>, f: spec_fn(EewArea) -> Option<(Seq<char>, i32)>)
    requires
        forall|a: EewArea| #[trigger] f(a) == for_forecast(a),
    ensures
        shaken(areas) == areas.filter_map(f),
    decreases areas.len(),
{
    if areas.len() > 0 {
        lemma_shaken(areas.drop_last(), f);
        assert(f(areas.last()) == for_forecast(areas.last()));
    }
    assert(shaken(areas) =~= areas.filter_map(f));
}

/// Cutting a text at a character loses nothing but that character, and leaves it in no piece.
pub proof fn lemma_pieces_make_up_the_text(s: Seq<char>, sep: char)
    ensures
        pieces(s, sep).len() > 0,
        joined(pieces(s, sep), seq![sep]) == s,
        forall|k: int| 0 <= k < pieces(s, sep).len() ==> !(#[trigger] pieces(s, sep)[k]).contains(
            sep,
        ),
    decreases s.len(),
{
    let now = pieces(s, sep);
    if s.len() == 0 {
        assert(joined(now, seq![sep]) =~= s);
    } else {
        let rest = s.drop_last();
        let c = s.last();
        let before = pieces(rest, sep);
        lemma_pieces_make_up_the_text(rest, sep);
        assert(s =~= rest.push(c));
        if c == sep {
            assert(now.drop_last() =~= before);
            assert(joined(now, seq![sep]) =~= s);
        } else {
            let n = before.len() - 1;
            let head = before.drop_last();
            assert(now.drop_last() =~= head);
            assert(now.last() == before.last().push(c));
            if n == 0 {
                assert(joined(now, seq![sep]) =~= s);
            } else {
                assert(joined(before, seq![sep]) == joined(head, seq![sep]) + seq![sep]
                    + before.last());
                assert(joined(now, seq![sep]) =~= s);
            }
            assert forall|k: int| 0 <= k < now.len() implies !(#[trigger] now[k]).contains(
                sep,
            ) by {
                if k < n {
                    assert(now[k] == before[k]);
                } else {
                    assert(!before[n].contains(sep));
                    lemma_push_contains(before[n], c, sep);
                }
            }
        }
    }
}

/// The line that a piece between line feeds is: without a carriage return at its end, if a line
/// feed follows. What begins with `#` is none, nor is what is empty after the last line feed.
pub open spec fn line_in(all: Seq<Seq<char>>, k: int) -> Option<Seq<char>> {
    let piece = all[k];
    let line = if k < all.len() - 1 && piece.len() > 0 && piece[piece.len() - 1] == '\r' {
        piece.subrange(0, piece.len() - 1)
    } else {
        piece
    };
    if line.len() > 0 && line[0] == '#' || k == all.len() - 1 && line.len() == 0 {
        None
    } else {
        Some(line)
    }
}

/// The lines of a list are the pieces between its line feeds, in order.
pub proof fn lemma_lines_are_the_pieces_between_line_feeds(s: Seq<char>)
    ensures
        ({
            let all = pieces(s, '\n');
            data_lines(s) == Seq::new(all.len(), |k: int| k).filter_map(|k: int| line_in(all, k))
        }),
{
    let all = pieces(s, '\n');
    let f = |k: int| line_in(all, k);
    lemma_lines(all, all.len(), f);
    assert(Seq::new(all.len(), |k: int| k) == Seq::new(all.len(), |k: int| k));
}

proof fn lemma_lines(all: Seq<Seq<char>>, n: nat, f: spec_fn(int) -> Option<Seq<char>>)
    requires
        n <= all.len(),
        forall|k: int| #[trigger] f(k) == line_in(all, k),
    ensures
        data_lines_of(all, n) == Seq::new(n, |k: int| k).filter_map(f),
    decreases n,
{
    let now = Seq::new(n, |k: int| k);
    if n > 0 {
        let m = (n - 1) as nat;
        lemma_lines(all, m, f);
        assert(now.drop_last() =~= Seq::new(m, |k: int| k));
        assert(now.last() == m);
        assert(f(m as int) == line_in(all, m as int));
        let piece = all[m as int];
        if piece.len() > 0 {
            assert(piece.drop_last() =~= piece.subrange(0, piece.len() - 1));
        }
    }
    assert(data_lines_of(all, n) =~= now.filter_map(f));
}

/// A list is read exactly if every line has four columns, and what is read are those columns.
pub proof fn lemma_lines_are_read_in_four_columns(lines: Seq<Seq<char>>)
    ensures
        columns_of(lines) is Some <==> forall|i: int|
            0 <= i < lines.len() ==> pieces(#[trigger] lines[i], '\t').len() == 4,
        columns_of(lines) matches Some(rows) ==> rows.len() == lines.len() && forall|i: int|
            0 <= i < lines.len() ==> seq![rows[i].0, rows[i].1, rows[i].2, rows[i].3] == pieces(
                #[trigger] lines[i],
                '\t',
            ),
    decreases lines.len(),
{
    if lines.len() > 0 {
        let rest = lines.drop_last();
        let n = rest.len() as int;
        lemma_lines_are_read_in_four_columns(rest);
        assert(lines[n] == lines.last());
        assert forall|i: int| 0 <= i < n implies lines[i] == #[trigger] rest[i] by {}
        if forall|i: int|
            0 <= i < lines.len() ==> pieces(#[trigger] lines[i], '\t').len() == 4 {
            assert forall|i: int| 0 <= i < rest.len() implies pieces(
                #[trigger] rest[i],
                '\t',
            ).len() == 4 by {
                assert(lines[i] == rest[i]);
            }
        }
        match columns_of(lines) {
            Some(rows) => {
                let before = columns_of(rest)->0;
                assert forall|i: int| 0 <= i < lines.len() implies seq![
                    rows[i].0,
                    rows[i].1,
                    rows[i].2,
                    rows[i].3,
                ] == pieces(#[trigger] lines[i], '\t') by {
                    if i < n {
                        assert(rest[i] == lines[i]);
                        assert(rows[i] == before[i]);
                    } else {
                        assert(seq![rows[i].0, rows[i].1, rows[i].2, rows[i].3] =~= pieces(
                            lines[i],
                            '\t',
                        ));
                    }
                }
                assert forall|i: int| 0 <= i < lines.len() implies pieces(
                    #[trigger] lines[i],
                    '\t',
                ).len() == 4 by {
                    if i < n {
                        assert(rest[i] == lines[i]);
                    }
                }
            },
            None => {},
        }
    }
}

/// A text is compared character by character: each in plain width and lower case, but for what
/// a search passes over.
pub proof fn lemma_search_compares_by_character(a: Seq<char>, b: Seq<char>, c: char)
    ensures
        search_text(Seq::empty()).len() == 0,
        search_text(a + b) == search_text(a) + search_text(b),
        search_text(seq![c]) == lowercase(half_width(c)).filter(|d: char| !is_filler(d)),
    decreases b.len(),
{
    if b.len() == 0 {
        assert(a + b =~= a);
        assert(search_text(a) + search_text(b) =~= search_text(a));
    } else {
        lemma_search_compares_by_character(a, b.drop_last(), c);
        assert((a + b).drop_last() =~= a + b.drop_last());
        assert((a + b).last() == b.last());
        assert(search_text(a + b) =~= search_text(a) + search_text(b));
    }
    assert(seq![c].drop_last() =~= Seq::<char>::empty());
    assert(seq![c].last() == c);
    assert(search_text(Seq::<char>::empty()) =~= Seq::<char>::empty());
    lemma_kept(lowercase(half_width(c)), |d: char| !is_filler(d));
    assert(search_text(seq![c]) =~= kept(lowercase(half_width(c))));
}

proof fn lemma_kept(s: Seq<char>, f: spec_fn(char) -> bool)
    requires
        forall|d: char| #[trigger] f(d) == !is_filler(d),
    ensures
        kept(s) == s.filter(f),
    decreases s.len(),
{
    reveal(Seq::filter);
    if s.len() > 0 {
        lemma_kept(s.drop_last(), f);
        assert(f(s.last()) == !is_filler(s.last()));
    }
}

/// Full-width letters and digits stand for the plain ones at the same place of the alphabet,
/// the full-width space for the plain one, and every other character for itself.
pub proof fn lemma_full_width_stands_for_plain(c: char, i: int)
    ensures
        0 <= i < 26 && c as int == 'Ａ' as int + i ==> half_width(c) as int == 'A' as int + i,
        0 <= i < 26 && c as int == 'ａ' as int + i ==> half_width(c) as int == 'a' as int + i,
        0 <= i < 10 && c as int == '０' as int + i ==> half_width(c) as int == '0' as int + i,
        c == '　' ==> half_width(c) == ' ',
        c != '　' && !('Ａ' <= c <= 'Ｚ') && !('ａ' <= c <= 'ｚ') && !('０' <= c <= '９')
            ==> half_width(c) == c,
{
}

/// A search passes over white space and over the signs that join words, and over nothing else.
pub proof fn lemma_search_passes_over_what_joins_words(c: char)
    ensures
        is_filler(c) == (is_white(c) || "・･-‐‑‒–—―_"@.contains(c)),
{
    reveal_strlit("・･-‐‑‒–—―_");
    let s = "・･-‐‑‒–—―_"@;
    assert(s[0] == '・' && s[1] == '･' && s[2] == '-' && s[3] == '‐' && s[4] == '‑');
    assert(s[5] == '‒' && s[6] == '–' && s[7] == '—' && s[8] == '―' && s[9] == '_');
    if is_filler(c) && !is_white(c) {
        assert(s.contains(c));
    }
}

/// One score is better than another, compared as fractions.
pub open spec fn is_better(a: Score, b: Score) -> bool {
    (a.low * a.whole + a.span * a.part) * b.whole > (b.low * b.whole + b.span * b.part) * a.whole
}

/// The better score comes first, then the shorter name, then the prefecture and the name that
/// come first in the order of texts.
pub proof fn lemma_ties_are_broken_by_name(a: Found, b: Found)
    ensures
        is_better(a.0, b.0) ==> ranks_before(a, b),
        is_better(b.0, a.0) && !is_better(a.0, b.0) ==> !ranks_before(a, b),
        !is_better(a.0, b.0) && !is_better(b.0, a.0) ==> ({
            let (m, n) = (encode_utf8(a.1.name@).len(), encode_utf8(b.1.name@).len());
            &&& m < n ==> ranks_before(a, b)
            &&& m > n ==> !ranks_before(a, b)
            &&& m == n && precedes(a.1.pref@, b.1.pref@) ==> ranks_before(a, b)
            &&& m == n && precedes(b.1.pref@, a.1.pref@) ==> !ranks_before(a, b)
            &&& m == n && a.1.pref@ == b.1.pref@ ==> ranks_before(a, b) == precedes(
                a.1.name@,
                b.1.name@,
            )
        }),
{
    lemma_precedes_trichotomy(a.1.pref@, b.1.pref@);
    lemma_precedes_irreflexive(a.1.pref@);
}

/// A station matches a query exactly if its name holds it, if it is that of its prefecture, if
/// the prefecture and the name put together hold it, or the name after the prefecture that its
/// first word stands for.
pub proof fn lemma_what_matches(query: Seq<char>, pref: Seq<char>, name: Seq<char>)
    requires
        query.len() > 0,
        pref.len() + name.len() <= usize::MAX,
    ensures
        match_score(query, pref, name) is Some <==> {
            ||| occurs(name, query)
            ||| query == pref
            ||| occurs(pref + name, query)
            ||| exists|stem: Seq<char>, c: char|
                #![trigger stem.push(c)]
                {
                    &&& stem.len() > 0
                    &&& begins(name, stem)
                    &&& (pref == stem && pref.last() != '都' && pref.last() != '府' && pref.last()
                        != '県' || pref == stem.push(c) && (c == '都' || c == '府' || c == '県'))
                    &&& occurs(pref + name.skip(stem.len() as int), query)
                }
        },
        query == name ==> (match_score(query, pref, name) matches Some(s) && s.low == 100 && s.span
            == 0 && s.whole > 0),
        query != name && occurs(name, query) ==> match_score(query, pref, name) == Some(
            (Score { low: 70, span: 30, part: query.len() as usize, whole: name.len() as usize }),
        ),
        !occurs(name, query) && query == pref ==> (match_score(query, pref, name) matches Some(s)
            && s.low == 65 && s.span == 0 && s.whole > 0),
        !occurs(name, query) && query != pref ==> (match_score(query, pref, name) matches Some(s)
            ==> s.low == 50 && s.span == 15 && s.part == query.len()),
        !occurs(name, query) && query != pref && occurs(pref + name, query) ==> match_score(
            query,
            pref,
            name,
        )->0.whole == pref.len() + name.len(),
{
    if query == name {
        assert(name.subrange(0int, 0int + query.len()) =~= query);
        assert(occurs(name, query));
    }
    if occurs(name, query) || occurs(pref + name, query) {
    } else {
        let stem = crate::geo::stem(pref);
        if pref.len() > 0 && stem != pref {
            assert(pref =~= stem.push(pref.last()));
        }
        if stem.len() > 0 && begins(name, stem) && occurs(
            pref + name.skip(stem.len() as int),
            query,
        ) {
            let c = if stem != pref {
                pref.last()
            } else {
                'a'
            };
            assert(stem.push(c) == stem.push(c));
        }
        assert forall|t: Seq<char>, c: char|
            #![trigger t.push(c)]
            t.len() > 0 && (pref == t && pref.last() != '都' && pref.last() != '府' && pref.last()
                != '県' || pref == t.push(c) && (c == '都' || c == '府' || c == '県')) implies t
            == stem by {
            if pref == t.push(c) {
                assert(t.push(c).drop_last() =~= t);
            }
        }
    }
}

/// A number of degrees from 16 to 256, given in ten-thousandths: the bits are those of the
/// number of 53 bits that is nearest to it.
pub open spec fn is_nearest(bits: u64, ten_thousandths: int) -> bool {
    let (base, unit): (int, int) = if ten_thousandths < 32_0000 {
        (0x4030_0000_0000_0000, 0x1_0000_0000_0000)
    } else if ten_thousandths < 64_0000 {
        (0x4040_0000_0000_0000, 0x8000_0000_0000)
    } else if ten_thousandths < 128_0000 {
        (0x4050_0000_0000_0000, 0x4000_0000_0000)
    } else {
        (0x4060_0000_0000_0000, 0x2000_0000_0000)
    };
    &&& base <= bits < base + 0x10_0000_0000_0000
    &&& -5000 < (bits - base + 0x10_0000_0000_0000) * 10000 - ten_thousandths * unit < 5000
}

/// The place of a prefecture in the table: so many ten-thousandths of a degree to the north and
/// to the east.
pub open spec fn lies_at(i: int, name: Seq<char>, north: int, east: int) -> bool {
    &&& PREF_COORDS@[i].0@ == name
    &&& is_nearest(PREF_COORDS@[i].1, north)
    &&& is_nearest(PREF_COORDS@[i].2, east)
}

/// Where the prefectures are drawn.
pub proof fn lemma_where_prefectures_lie()
    ensures
        PREF_COORDS@.len() == 47,
        lies_at(0, "北海道"@, 43_0642, 141_3469),
        lies_at(1, "青森県"@, 40_8244, 140_7400),
        lies_at(2, "岩手県"@, 39_7036, 141_1527),
        lies_at(3, "宮城県"@, 38_2688, 140_8721),
        lies_at(4, "秋田県"@, 39_7186, 140_1024),
        lies_at(5, "山形県"@, 38_2404, 140_3633),
        lies_at(6, "福島県"@, 37_7503, 140_4676),
        lies_at(7, "茨城県"@, 36_3418, 140_4468),
        lies_at(8, "栃木県"@, 36_5657, 139_8836),
        lies_at(9, "群馬県"@, 36_3907, 139_0604),
        lies_at(10, "埼玉県"@, 35_8570, 139_6489),
        lies_at(11, "千葉県"@, 35_6051, 140_1233),
        lies_at(12, "東京都"@, 35_6895, 139_6917),
        lies_at(13, "神奈川県"@, 35_4478, 139_6425),
        lies_at(14, "新潟県"@, 37_9026, 139_0235),
        lies_at(15, "富山県"@, 36_6953, 137_2113),
        lies_at(16, "石川県"@, 36_5947, 136_6256),
        lies_at(17, "福井県"@, 36_0652, 136_2216),
        lies_at(18, "山梨県"@, 35_6642, 138_5684),
        lies_at(19, "長野県"@, 36_6513, 138_1810),
        lies_at(20, "岐阜県"@, 35_3912, 136_7223),
        lies_at(21, "静岡県"@, 34_9769, 138_3831),
        lies_at(22, "愛知県"@, 35_1802, 136_9066),
        lies_at(23, "三重県"@, 34_7303, 136_5086),
        lies_at(24, "滋賀県"@, 35_0045, 135_8686),
        lies_at(25, "京都府"@, 35_0212, 135_7556),
        lies_at(26, "大阪府"@, 34_6863, 135_5197),
        lies_at(27, "兵庫県"@, 34_6913, 135_1830),
        lies_at(28, "奈良県"@, 34_6851, 135_8329),
        lies_at(29, "和歌山県"@, 34_2261, 135_1675),
        lies_at(30, "鳥取県"@, 35_5039, 134_2380),
        lies_at(31, "島根県"@, 35_4723, 133_0505),
        lies_at(32, "岡山県"@, 34_6618, 133_9344),
        lies_at(33, "広島県"@, 34_3966, 132_4596),
        lies_at(34, "山口県"@, 34_1859, 131_4714),
        lies_at(35, "徳島県"@, 34_0658, 134_5593),
        lies_at(36, "香川県"@, 34_3401, 134_0434),
        lies_at(37, "愛媛県"@, 33_8417, 132_7657),
        lies_at(38, "高知県"@, 33_5597, 133_5311),
        lies_at(39, "福岡県"@, 33_6064, 130_4181),
        lies_at(40, "佐賀県"@, 33_2494, 130_2989),
        lies_at(41, "長崎県"@, 32_7448, 129_8737),
        lies_at(42, "熊本県"@, 32_7898, 130_7417),
        lies_at(43, "大分県"@, 33_2382, 131_6126),
        lies_at(44, "宮崎県"@, 31_9111, 131_4239),
        lies_at(45, "鹿児島県"@, 31_5602, 130_5581),
        lies_at(46, "沖縄県"@, 26_2124, 127_6809),
{
}

/// A prefecture is drawn where the table has it, by its full name; other names are not drawn.
pub proof fn lemma_prefectures_are_drawn_by_name(pref: Seq<char>)
    ensures
        match coord_of_pref(pref) {
            Some(at) => exists|j: int|
                0 <= j < 47 && (#[trigger] PREF_COORDS@[j]).0@ == pref && at.0.bits
                    == PREF_COORDS@[j].1 && at.1.bits == PREF_COORDS@[j].2,
            None => forall|j: int| 0 <= j < 47 ==> (#[trigger] PREF_COORDS@[j]).0@ != pref,
        },
{
    lemma_rows(PREF_COORDS@, pref);
}

proof fn lemma_rows(table: Seq<(&'static str, u64, u64)>, pref: Seq<char>)
    ensures
        match coord_in(table, pref) {
            Some(at) => exists|j: int|
                0 <= j < table.len() && (#[trigger] table[j]).0@ == pref && at.0.bits == table[j].1
                    && at.1.bits == table[j].2,
            None => forall|j: int| 0 <= j < table.len() ==> (#[trigger] table[j]).0@ != pref,
        },
    decreases table.len(),
{
    if table.len() > 0 && table[0].0@ != pref {
        let rest = table.drop_first();
        lemma_rows(rest, pref);
        assert forall|j: int| 1 <= j < table.len() implies #[trigger] table[j] == rest[j - 1] by {}
        if coord_in(rest, pref) is Some {
            let at = coord_in(rest, pref)->0;
            let j = choose|j: int|
                0 <= j < rest.len() && (#[trigger] rest[j]).0@ == pref && at.0.bits == rest[j].1
                    && at.1.bits == rest[j].2;
            assert(table[j + 1] == rest[j]);
        }
    }
}

} // verus!
