//! What is promised of the maps: which part of the globe they show, and what is drawn on it.

use vstd::prelude::*;

use crate::geo::Marker;
use crate::intensity::palette;
use crate::mapgen::{
    by_strength, framed, hull, inside, lemma_strong_on_top, markers_drawing, marks, narrower,
    quake_drawing, radii, settled, slotted, whole_view, zoom_from, Bounds, Circle, Drawing, Focus,
};
use crate::reading::Real;

verus! {

/// Numbers are compared as they are ordered, by their bits: a set sign turns the order round,
/// the two zeros are equal, and what lies beyond the infinity compares with nothing.
pub proof fn lemma_numbers_compare_by_their_bits(a: Real, b: Real)
    ensures
        ({
            let sign: int = 0x8000_0000_0000_0000;
            let infinity: int = 0x7ff0_0000_0000_0000;
            &&& a.bits < sign ==> a.nan() == (a.bits > infinity)
            &&& a.bits >= sign ==> a.nan() == (a.bits - sign > infinity)
            &&& a.nan() || b.nan() ==> !a.at_most(b)
            &&& !a.nan() && !b.nan() && a.bits < sign && b.bits < sign ==> a.at_most(b) == (a.bits
                <= b.bits)
            &&& !a.nan() && !b.nan() && a.bits >= sign && b.bits >= sign ==> a.at_most(b) == (
            a.bits >= b.bits)
            &&& !a.nan() && !b.nan() && a.bits >= sign && b.bits < sign ==> a.at_most(b)
            &&& !a.nan() && !b.nan() && a.bits < sign && b.bits >= sign ==> a.at_most(b) == (a.bits
                == 0 && b.bits == sign)
        }),
{
}

/// The part of the globe that holds some places reaches no further than they do: each of its
/// edges goes through one of them.
pub proof fn lemma_views_are_tight(places: Seq<(Real, Real)>)
    ensures
        hull(places) is None <==> places.len() == 0,
        hull(places) matches Some(b) ==> {
            &&& exists|i: int| 0 <= i < places.len() && (#[trigger] places[i]).0 == b.lat_min
            &&& exists|i: int| 0 <= i < places.len() && (#[trigger] places[i]).0 == b.lat_max
            &&& exists|i: int| 0 <= i < places.len() && (#[trigger] places[i]).1 == b.lon_min
            &&& exists|i: int| 0 <= i < places.len() && (#[trigger] places[i]).1 == b.lon_max
        },
    decreases places.len(),
{
    if places.len() > 0 {
        let rest = places.drop_last();
        let n = rest.len() as int;
        lemma_views_are_tight(rest);
        assert(places[n] == places.last());
        match hull(rest) {
            Some(c) => {
                let i = choose|i: int| 0 <= i < rest.len() && (#[trigger] rest[i]).0 == c.lat_min;
                let j = choose|j: int| 0 <= j < rest.len() && (#[trigger] rest[j]).0 == c.lat_max;
                let k = choose|k: int| 0 <= k < rest.len() && (#[trigger] rest[k]).1 == c.lon_min;
                let l = choose|l: int| 0 <= l < rest.len() && (#[trigger] rest[l]).1 == c.lon_max;
                assert(places[i] == rest[i] && places[j] == rest[j]);
                assert(places[k] == rest[k] && places[l] == rest[l]);
            },
            None => {},
        }
    }
}

/// The places of an epicenter, if it is known, and of the markers from an intensity on.
pub open spec fn places_from(
    anchor: Option<(Real, Real)>,
    markers: Seq<Marker>,
    least: int,
) -> Seq<(Real, Real)> {
    (match anchor {
        Some(place) => seq![place],
        None => Seq::empty(),
    }) + markers.filter_map(
        |m: Marker|
            if m.scale >= least {
                Some((m.latitude, m.longitude))
            } else {
                None
            },
    )
}

proof fn lemma_places_from(anchor: Option<(Real, Real)>, markers: Seq<Marker>, least: int)
    ensures
        framed(anchor, markers, least) == places_from(anchor, markers, least),
    decreases markers.len(),
{
    if markers.len() > 0 {
        lemma_places_from(anchor, markers.drop_last(), least);
    }
    assert(framed(anchor, markers, least) =~= places_from(anchor, markers, least));
}

/// At first a map shows the epicenter and every marker. Where that shows too little detail, it
/// leaves out the markers below 20, then those below 30 and then those below 40, as long as one
/// is left.
pub proof fn lemma_views_are_narrowed_by_weak_shaking(
    focus: Focus,
    zoom: u8,
    anchor: Option<(Real, Real)>,
    markers: Seq<Marker>,
)
    ensures
        hull(places_from(anchor, markers, i32::MIN as int)) matches Some(b) ==> whole_view(
            anchor,
            markers,
        ) == b,
        zoom >= 7 ==> narrower(focus, zoom, anchor, markers) is None,
        focus.step >= 3 ==> narrower(focus, zoom, anchor, markers) is None,
        zoom < 7 && focus.step < 3 ==> ({
            let least = 20 + 10 * focus.step as int;
            match narrower(focus, zoom, anchor, markers) {
                Some(next) => {
                    &&& exists|i: int|
                        0 <= i < markers.len() && (#[trigger] markers[i]).scale >= least
                    &&& next.step == focus.step + 1
                    &&& hull(places_from(anchor, markers, least)) == Some(next.best)
                },
                None => forall|i: int|
                    0 <= i < markers.len() ==> (#[trigger] markers[i]).scale < least,
            }
        }),
{
    lemma_places_from(anchor, markers, i32::MIN as int);
    if zoom < 7 && focus.step < 3 {
        let least = 20 + 10 * focus.step as int;
        assert(crate::mapgen::FOCUS_SCALE_STEPS@[focus.step as int] == least);
        lemma_places_from(anchor, markers, least);
        if crate::mapgen::any_from(markers, least) {
            let i = choose|i: int|
                0 <= i < markers.len() && (#[trigger] markers[i]).scale >= least;
            lemma_some_place(anchor, markers, least, i);
            lemma_views_are_tight(places_from(anchor, markers, least));
        }
    }
}

proof fn lemma_some_place(
    anchor: Option<(Real, Real)>,
    markers: Seq<Marker>,
    least: int,
    i: int,
)
    requires
        0 <= i < markers.len(),
        markers[i].scale >= least,
    ensures
        framed(anchor, markers, least).len() > 0,
    decreases markers.len(),
{
    if i < markers.len() - 1 {
        assert(markers.drop_last()[i] == markers[i]);
        lemma_some_place(anchor, markers.drop_last(), least, i);
    }
}

/// The view that is settled on is one from which no further step is taken, and is that of the
/// first step that is good enough: a view that shows enough detail stays.
pub proof fn lemma_enough_detail_settles_the_view(
    focus: Focus,
    zoom: spec_fn(Bounds) -> u8,
    anchor: Option<(Real, Real)>,
    markers: Seq<Marker>,
)
    ensures
        narrower(focus, zoom(focus.best), anchor, markers) is None ==> settled(
            focus,
            zoom,
            anchor,
            markers,
        ) == focus.best,
        narrower(focus, zoom(focus.best), anchor, markers) matches Some(next) ==> settled(
            focus,
            zoom,
            anchor,
            markers,
        ) == settled(next, zoom, anchor, markers),
        zoom(focus.best) >= 7 ==> settled(focus, zoom, anchor, markers) == focus.best,
{
}

/// The zoom is the largest of 4 to 8 at which everything fits, and 4 if nothing does.
pub proof fn lemma_zoom_is_the_largest_that_fits(fits: Seq<bool>, i: int)
    requires
        fits.len() == 5,
        0 <= i < 5,
    ensures
        fits[i] && (forall|j: int| i < j < 5 ==> !(#[trigger] fits[j])) ==> zoom_from(fits) == 4
            + i,
        (forall|j: int| 0 <= j < 5 ==> !(#[trigger] fits[j])) ==> zoom_from(fits) == 4,
{
    reveal_with_fuel(zoom_from, 6);
    let (a, b, c, d) = (
        fits.drop_last(),
        fits.drop_last().drop_last(),
        fits.drop_last().drop_last().drop_last(),
        fits.drop_last().drop_last().drop_last().drop_last(),
    );
    assert(fits.last() == fits[4] && a.last() == fits[3] && b.last() == fits[2] && c.last()
        == fits[1]);
    assert(d.len() == 1);
}

/// The markers that count for their size are those in the view.
pub proof fn lemma_markers_in_view_are_counted(view: Bounds, markers: Seq<Marker>)
    ensures
        inside(view, markers) == markers.filter(
            |m: Marker| view.holds((m.latitude, m.longitude)),
        ).len(),
{
    lemma_inside(view, markers, |m: Marker| view.holds((m.latitude, m.longitude)));
}

proof fn lemma_inside(view: Bounds, markers: Seq<Marker>, f: spec_fn(Marker) -> bool)
    requires
        forall|m: Marker| #[trigger] f(m) == view.holds((m.latitude, m.longitude)),
    ensures
        inside(view, markers) == markers.filter(f).len(),
    decreases markers.len(),
{
    reveal(Seq::filter);
    if markers.len() > 0 {
        lemma_inside(view, markers.drop_last(), f);
        let m = markers.last();
        assert(f(m) == view.holds((m.latitude, m.longitude)));
    }
}

/// Markers of one intensity keep their order when they are put in that of their strength.
pub proof fn lemma_equal_markers_keep_their_order(markers: Seq<Marker>, scale: i32)
    ensures
        by_strength(markers).filter(|m: Marker| m.scale == scale) == markers.filter(
            |m: Marker| m.scale == scale,
        ),
{
    lemma_stable(markers, scale, |m: Marker| m.scale == scale);
}

proof fn lemma_stable(markers: Seq<Marker>, scale: i32, f: spec_fn(Marker) -> bool)
    requires
        forall|m: Marker| #[trigger] f(m) == (m.scale == scale),
    ensures
        by_strength(markers).filter(f) == markers.filter(f),
    decreases markers.len(),
{
    reveal(Seq::filter);
    if markers.len() > 0 {
        let rest = markers.drop_last();
        lemma_stable(rest, scale, f);
        lemma_strong_on_top(rest);
        lemma_slot(by_strength(rest), markers.last(), scale, f);
        assert(f(markers.last()) == (markers.last().scale == scale));
    }
}

proof fn lemma_slot(list: Seq<Marker>, m: Marker, scale: i32, f: spec_fn(Marker) -> bool)
    requires
        forall|x: Marker| #[trigger] f(x) == (x.scale == scale),
        forall|i: int, j: int|
            0 <= i <= j < list.len() ==> (#[trigger] list[i]).scale <= (#[trigger] list[j]).scale,
    ensures
        slotted(list, m).filter(f) == if m.scale == scale {
            list.filter(f).push(m)
        } else {
            list.filter(f)
        },
    decreases list.len(),
{
    reveal(Seq::filter);
    assert(f(m) == (m.scale == scale));
    if list.len() > 0 && m.scale < list.last().scale {
        let rest = list.drop_last();
        assert forall|i: int, j: int| 0 <= i <= j < rest.len() implies (#[trigger] rest[i]).scale
            <= (#[trigger] rest[j]).scale by {
            assert(rest[i] == list[i] && rest[j] == list[j]);
        }
        lemma_slot(rest, m, scale, f);
        let last = list.last();
        assert(f(last) == (last.scale == scale));
        let now = slotted(list, m);
        assert(now.drop_last() =~= slotted(rest, m));
        assert(now.last() == last);
    } else {
        assert(list.push(m).drop_last() =~= list);
        assert(list.push(m).last() == m);
    }
}

/// A mark: a circle with the colour of its edge, and in it a smaller one with the colour of the
/// intensity.
pub open spec fn is_mark(
    edge: Circle,
    middle: Circle,
    m: Marker,
    color: (u8, u8, u8),
    outer: u32,
    inner: u32,
) -> bool {
    &&& edge.latitude == m.latitude && edge.longitude == m.longitude
    &&& middle.latitude == m.latitude && middle.longitude == m.longitude
    &&& edge.color == color && edge.radius == outer
    &&& middle.color == palette(m.scale) && middle.radius == inner
}

/// The circles of markers: two for each, in the order of the markers.
pub open spec fn are_marks(
    circles: Seq<Circle>,
    markers: Seq<Marker>,
    outer: u32,
    inner: u32,
) -> bool {
    &&& circles.len() == 2 * markers.len()
    &&& forall|k: int|
        0 <= k < markers.len() ==> is_mark(
            circles[2 * k],
            circles[2 * k + 1],
            #[trigger] markers[k],
            (255, 255, 255),
            outer,
            inner,
        )
}

/// The radii of a marker for a number of markers in the view, in tenths of a pixel.
pub open spec fn are_radii(count: int, outer: u32, inner: u32) -> bool {
    &&& count <= 15 ==> outer == 120 && inner == 90
    &&& 15 < count <= 60 ==> outer == 90 && inner == 65
    &&& 60 < count <= 200 ==> outer == 70 && inner == 50
    &&& 200 < count ==> outer == 55 && inner == 40
}

proof fn lemma_marks(markers: Seq<Marker>, r: (u32, u32))
    ensures
        are_marks(marks(markers, r), markers, r.0, r.1),
    decreases markers.len(),
{
    if markers.len() > 0 {
        let rest = markers.drop_last();
        lemma_marks(rest, r);
        let now = marks(markers, r);
        let before = marks(rest, r);
        assert forall|k: int| 0 <= k < markers.len() implies is_mark(
            now[2 * k],
            now[2 * k + 1],
            #[trigger] markers[k],
            (255, 255, 255),
            r.0,
            r.1,
        ) by {
            if k < rest.len() {
                assert(rest[k] == markers[k]);
                assert(now[2 * k] == before[2 * k] && now[2 * k + 1] == before[2 * k + 1]);
            } else {
                assert(now[2 * k] == now[before.len() as int]);
            }
        }
    }
}

/// A map of an earthquake shows every marker, the strongest on top, and on them the epicenter
/// with a black edge; an epicenter alone is drawn with a white one, without a view of its own.
pub proof fn lemma_a_map_shows_the_epicenter_on_top(
    epicenter: Marker,
    markers: &[Marker],
    view: Bounds,
    r: Drawing,
)
    requires
        call_ensures(quake_drawing, (epicenter, markers, view), r),
    ensures
        ({
            let n = r.circles@.len();
            &&& n == 2 * markers@.len() + 2
            &&& is_mark(
                r.circles@[n - 2],
                r.circles@[n - 1],
                epicenter,
                if markers@.len() > 0 {
                    (0u8, 0u8, 0u8)
                } else {
                    (255u8, 255u8, 255u8)
                },
                140,
                100,
            )
            &&& r.view == (if markers@.len() > 0 {
                Some(view)
            } else {
                None
            })
            &&& exists|outer: u32, inner: u32|
                are_radii(inside(view, markers@) as int, outer, inner) && #[trigger] are_marks(
                    r.circles@.subrange(0, n - 2),
                    by_strength(markers@),
                    outer,
                    inner,
                )
        }),
{
    let list = by_strength(markers@);
    let size = radii(inside(view, markers@));
    lemma_strong_on_top(markers@);
    lemma_marks(list, size);
    let n = r.circles@.len();
    if markers@.len() == 0 {
        assert(list =~= Seq::empty());
        assert(marks(list, size) =~= Seq::empty());
    }
    assert(r.circles@.subrange(0, n - 2) =~= marks(list, size));
    assert(are_radii(inside(view, markers@) as int, size.0, size.1));
    assert(are_marks(r.circles@.subrange(0, n - 2), list, size.0, size.1));
}

/// A map without an epicenter shows every marker, the strongest on top; there is none without
/// markers.
pub proof fn lemma_a_map_shows_every_marker(
    markers: &[Marker],
    view: Bounds,
    r: Option<Drawing>,
)
    requires
        call_ensures(markers_drawing, (markers, view), r),
    ensures
        r is None <==> markers@.len() == 0,
        r matches Some(d) ==> {
            &&& d.view == Some(view)
            &&& exists|outer: u32, inner: u32|
                are_radii(inside(view, markers@) as int, outer, inner) && #[trigger] are_marks(
                    d.circles@,
                    by_strength(markers@),
                    outer,
                    inner,
                )
        },
{
    let size = radii(inside(view, markers@));
    lemma_marks(by_strength(markers@), size);
    assert(are_radii(inside(view, markers@) as int, size.0, size.1));
}

} // verus!
