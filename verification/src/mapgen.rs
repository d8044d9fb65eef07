//! What is drawn on a map, and which part of the country it shows.

use vstd::prelude::*;

use crate::geo::Marker;
use crate::intensity::{marker_rgb, palette};
use crate::reading::Real;

verus! {

/// The zoom of a map that shows an epicenter alone.
pub const MAP_ZOOM: u8 = 8;

/// The size of a map in pixels.
pub const MAP_WIDTH: u32 = 640;

/// The size of a map in pixels.
pub const MAP_HEIGHT: u32 = 480;

/// The least zoom of a map that is fitted to its markers.
pub const FIT_ZOOM_MIN: u8 = 4;

/// The largest zoom of a map that is fitted to its markers.
pub const FIT_ZOOM_MAX: u8 = 8;

/// The margin of a map in pixels.
pub const FIT_PADDING: u32 = 64;

/// A map that would show less detail than this leaves weak shaking out of account.
pub const FOCUS_ZOOM_MIN: u8 = 7;

/// The intensities below which shaking is left out of account, one after another.
pub const FOCUS_SCALE_STEPS: [i32; 3] = [20, 30, 40];

/// How hard images are compressed, from 0 to 100.
pub const WEBP_EFFORT: u8 = 100;

/// A part of the globe.
#[derive(Debug, Clone, Copy, PartialEq, Eq, Structural)]
pub struct Bounds {
    pub lat_min: Real,
    pub lat_max: Real,
    pub lon_min: Real,
    pub lon_max: Real,
}

impl Bounds {
    /// The smallest part that holds this one and a place.
    pub open spec fn with(self, place: (Real, Real)) -> Bounds {
        Bounds {
            lat_min: self.lat_min.lower(place.0),
            lat_max: self.lat_max.upper(place.0),
            lon_min: self.lon_min.lower(place.1),
            lon_max: self.lon_max.upper(place.1),
        }
    }

    /// Whether a place lies in this part.
    pub open spec fn holds(self, place: (Real, Real)) -> bool {
        &&& self.lat_min.at_most(place.0)
        &&& place.0.at_most(self.lat_max)
        &&& self.lon_min.at_most(place.1)
        &&& place.1.at_most(self.lon_max)
    }
}

/// The smallest part of the globe that holds all places; `None` without places.
pub open spec fn hull(places: Seq<(Real, Real)>) -> Option<Bounds>
    decreases places.len(),
{
    if places.len() == 0 {
        None
    } else {
        let (lat, lon) = places.last();
        match hull(places.drop_last()) {
            Some(b) => Some(b.with((lat, lon))),
            None => Some(Bounds { lat_min: lat, lat_max: lat, lon_min: lon, lon_max: lon }),
        }
    }
}

/// The smallest part of the globe that holds all places.
pub fn bounds(coords: &[(Real, Real)]) -> (r: Option<Bounds>)
    ensures
        r == hull(coords@),
{
    let mut best: Option<Bounds> = None;
    for i in 0..coords.len()
        invariant
            best == hull(coords@.take(i as int)),
    {
        let (lat, lon) = coords[i];
        assert(coords@.take(i + 1).drop_last() =~= coords@.take(i as int));
        best = Some(
            match best {
                Some(b) => Bounds {
                    lat_min: b.lat_min.min(lat),
                    lat_max: b.lat_max.max(lat),
                    lon_min: b.lon_min.min(lon),
                    lon_max: b.lon_max.max(lon),
                },
                None => Bounds { lat_min: lat, lat_max: lat, lon_min: lon, lon_max: lon },
            },
        );
    }
    assert(coords@.take(coords@.len() as int) =~= coords@);
    best
}

/// A place whose coordinates are numbers lies in the hull of any places it is among.
pub proof fn lemma_hull_holds(places: Seq<(Real, Real)>, i: int)
    requires
        0 <= i < places.len(),
        !places[i].0.nan(),
        !places[i].1.nan(),
    ensures
        hull(places) is Some,
        hull(places)->0.holds(places[i]),
    decreases places.len(),
{
    if i < places.len() - 1 {
        assert(places.drop_last()[i] == places[i]);
        lemma_hull_holds(places.drop_last(), i);
    }
}

/// The places that a view is fitted to: the anchor, and the markers from an intensity on.
pub open spec fn framed(
    anchor: Option<(Real, Real)>,
    markers: Seq<Marker>,
    min_scale: int,
) -> Seq<(Real, Real)>
    decreases markers.len(),
{
    if markers.len() == 0 {
        match anchor {
            Some(place) => seq![place],
            None => Seq::empty(),
        }
    } else {
        let before = framed(anchor, markers.drop_last(), min_scale);
        let m = markers.last();
        if m.scale >= min_scale {
            before.push((m.latitude, m.longitude))
        } else {
            before
        }
    }
}

fn frame(anchor: Option<(Real, Real)>, markers: &[Marker], min_scale: i32) -> (r: Vec<
    (Real, Real),
>)
    ensures
        r@ == framed(anchor, markers@, min_scale as int),
{
    let mut out: Vec<(Real, Real)> = Vec::new();
    if let Some(place) = anchor {
        out.push(place);
    }
    assert(out@ =~= framed(anchor, markers@.take(0), min_scale as int));
    for i in 0..markers.len()
        invariant
            out@ == framed(anchor, markers@.take(i as int), min_scale as int),
    {
        assert(markers@.take(i + 1).drop_last() =~= markers@.take(i as int));
        if markers[i].scale >= min_scale {
            out.push((markers[i].latitude, markers[i].longitude));
        }
    }
    assert(markers@.take(markers@.len() as int) =~= markers@);
    out
}

/// The view of an anchor and all markers.
pub open spec fn whole_view(anchor: Option<(Real, Real)>, markers: Seq<Marker>) -> Bounds {
    match hull(framed(anchor, markers, i32::MIN as int)) {
        Some(b) => b,
        None => nowhere(),
    }
}

/// The view of nothing.
pub open spec fn nowhere() -> Bounds {
    Bounds {
        lat_min: Real { bits: 0 },
        lat_max: Real { bits: 0 },
        lon_min: Real { bits: 0 },
        lon_max: Real { bits: 0 },
    }
}

/// Some marker is as strong as that.
pub open spec fn any_from(markers: Seq<Marker>, min_scale: int) -> bool {
    exists|i: int| 0 <= i < markers.len() && (#[trigger] markers[i]).scale >= min_scale
}

fn any_marker_from(markers: &[Marker], min_scale: i32) -> (r: bool)
    ensures
        r == any_from(markers@, min_scale as int),
{
    for i in 0..markers.len()
        invariant
            forall|j: int| 0 <= j < i ==> (#[trigger] markers@[j]).scale < min_scale,
    {
        if markers[i].scale >= min_scale {
            assert(markers@[i as int].scale >= min_scale);
            return true;
        }
    }
    false
}

/// A view that is narrowed step by step.
#[derive(Debug, Clone, Copy, PartialEq, Eq, Structural)]
pub struct Focus {
    pub best: Bounds,
    pub step: usize,
}

/// The next narrower view of a view that is seen at a zoom; `None` if the view stays. It
/// stays if it shows enough detail, if there is nothing more to leave out, and if no marker
/// would be left: an epicenter alone says nothing about where it shook.
pub open spec fn narrower(
    focus: Focus,
    zoom: u8,
    anchor: Option<(Real, Real)>,
    markers: Seq<Marker>,
) -> Option<Focus> {
    if focus.step >= 3 || zoom >= FOCUS_ZOOM_MIN || !any_from(
        markers,
        FOCUS_SCALE_STEPS@[focus.step as int] as int,
    ) {
        None
    } else {
        let best = match hull(
            framed(anchor, markers, FOCUS_SCALE_STEPS@[focus.step as int] as int),
        ) {
            Some(b) => b,
            None => focus.best,
        };
        Some(Focus { best, step: (focus.step + 1) as usize })
    }
}

/// The view that is settled on, if `zoom` tells how much detail a view shows.
pub open spec fn settled(
    focus: Focus,
    zoom: spec_fn(Bounds) -> u8,
    anchor: Option<(Real, Real)>,
    markers: Seq<Marker>,
) -> Bounds
    decreases 3 - focus.step,
{
    match narrower(focus, zoom(focus.best), anchor, markers) {
        Some(next) => settled(next, zoom, anchor, markers),
        None => focus.best,
    }
}

impl Focus {
    /// Begins with the view of the anchor and all markers.
    pub fn start(anchor: Option<(Real, Real)>, markers: &[Marker]) -> (r: Focus)
        ensures
            r == (Focus { best: whole_view(anchor, markers@), step: 0 }),
    {
        let places = frame(anchor, markers, i32::MIN);
        let best = match bounds(&places) {
            Some(b) => b,
            None => Bounds {
                lat_min: Real::zero(),
                lat_max: Real::zero(),
                lon_min: Real::zero(),
                lon_max: Real::zero(),
            },
        };
        Focus { best, step: 0 }
    }

    /// The next narrower view, given the zoom at which this one is seen; `None` if this one
    /// stays.
    pub fn narrow(self, zoom: u8, anchor: Option<(Real, Real)>, markers: &[Marker]) -> (r: Option<
        Focus,
    >)
        ensures
            r == narrower(self, zoom, anchor, markers@),
    {
        if self.step >= 3 || zoom >= FOCUS_ZOOM_MIN {
            return None;
        }
        let steps: [i32; 3] = FOCUS_SCALE_STEPS;
        let min_scale: i32 = steps[self.step];
        if !any_marker_from(markers, min_scale) {
            return None;
        }
        let places = frame(anchor, markers, min_scale);
        let best = match bounds(&places) {
            Some(b) => b,
            None => self.best,
        };
        Some(Focus { best, step: self.step + 1 })
    }
}

/// A view that an anchor and all markers from an intensity on lie in.
pub open spec fn shows(
    view: Bounds,
    anchor: Option<(Real, Real)>,
    markers: Seq<Marker>,
    min_scale: int,
) -> bool {
    &&& anchor matches Some(place) ==> (!place.0.nan() && !place.1.nan() ==> view.holds(place))
    &&& forall|i: int|
        0 <= i < markers.len() && (#[trigger] markers[i]).scale >= min_scale
            && !markers[i].latitude.nan() && !markers[i].longitude.nan() ==> view.holds(
            (markers[i].latitude, markers[i].longitude),
        )
}

/// However much detail a view shows, the one that is settled on holds the epicenter and
/// every marker of intensity 4 or more.
pub proof fn lemma_settled_view_shows_strong_shaking(
    zoom: spec_fn(Bounds) -> u8,
    anchor: Option<(Real, Real)>,
    markers: Seq<Marker>,
)
    ensures
        shows(
            settled(Focus { best: whole_view(anchor, markers), step: 0 }, zoom, anchor, markers),
            anchor,
            markers,
            40,
        ),
{
    let focus = Focus { best: whole_view(anchor, markers), step: 0 };
    lemma_frame_shows(anchor, markers, i32::MIN as int);
    if hull(framed(anchor, markers, i32::MIN as int)) is None {
        lemma_framed_empty(anchor, markers, i32::MIN as int);
    }
    lemma_settled_shows(focus, zoom, anchor, markers);
}

proof fn lemma_settled_shows(
    focus: Focus,
    zoom: spec_fn(Bounds) -> u8,
    anchor: Option<(Real, Real)>,
    markers: Seq<Marker>,
)
    requires
        shows(focus.best, anchor, markers, 40),
    ensures
        shows(settled(focus, zoom, anchor, markers), anchor, markers, 40),
    decreases 3 - focus.step,
{
    match narrower(focus, zoom(focus.best), anchor, markers) {
        Some(next) => {
            let min_scale = FOCUS_SCALE_STEPS@[focus.step as int] as int;
            assert(min_scale <= 40);
            lemma_frame_shows(anchor, markers, min_scale);
            if hull(framed(anchor, markers, min_scale)) is None {
                lemma_framed_empty(anchor, markers, min_scale);
            }
            lemma_settled_shows(next, zoom, anchor, markers);
        },
        None => {},
    }
}

proof fn lemma_frame_shows(anchor: Option<(Real, Real)>, markers: Seq<Marker>, min_scale: int)
    ensures
        hull(framed(anchor, markers, min_scale)) matches Some(b) ==> shows(
            b,
            anchor,
            markers,
            min_scale,
        ),
{
    let places = framed(anchor, markers, min_scale);
    if hull(places) is Some {
        let b = hull(places)->0;
        if anchor is Some && !(anchor->0).0.nan() && !(anchor->0).1.nan() {
            lemma_framed_anchor(anchor, markers, min_scale);
            lemma_hull_holds(places, 0);
        }
        assert forall|i: int|
            0 <= i < markers.len() && (#[trigger] markers[i]).scale >= min_scale
                && !markers[i].latitude.nan() && !markers[i].longitude.nan() implies b.holds(
            (markers[i].latitude, markers[i].longitude),
        ) by {
            let k = lemma_framed_has(anchor, markers, min_scale, i);
            lemma_hull_holds(places, k);
        }
    }
}

proof fn lemma_framed_anchor(anchor: Option<(Real, Real)>, markers: Seq<Marker>, min_scale: int)
    requires
        anchor is Some,
    ensures
        framed(anchor, markers, min_scale).len() > 0,
        framed(anchor, markers, min_scale)[0] == anchor->0,
    decreases markers.len(),
{
    if markers.len() > 0 {
        lemma_framed_anchor(anchor, markers.drop_last(), min_scale);
    }
}

proof fn lemma_framed_has(
    anchor: Option<(Real, Real)>,
    markers: Seq<Marker>,
    min_scale: int,
    i: int,
) -> (k: int)
    requires
        0 <= i < markers.len(),
        markers[i].scale >= min_scale,
    ensures
        0 <= k < framed(anchor, markers, min_scale).len(),
        framed(anchor, markers, min_scale)[k] == (markers[i].latitude, markers[i].longitude),
    decreases markers.len(),
{
    let before = framed(anchor, markers.drop_last(), min_scale);
    if i == markers.len() - 1 {
        before.len() as int
    } else {
        assert(markers.drop_last()[i] == markers[i]);
        lemma_framed_has(anchor, markers.drop_last(), min_scale, i)
    }
}

proof fn lemma_framed_empty(anchor: Option<(Real, Real)>, markers: Seq<Marker>, min_scale: int)
    requires
        hull(framed(anchor, markers, min_scale)) is None,
    ensures
        anchor is None,
        forall|i: int| 0 <= i < markers.len() ==> (#[trigger] markers[i]).scale < min_scale,
{
    if anchor is Some {
        lemma_framed_anchor(anchor, markers, min_scale);
    }
    assert forall|i: int| 0 <= i < markers.len() implies (#[trigger] markers[i]).scale
        < min_scale by {
        if markers[i].scale >= min_scale {
            let k = lemma_framed_has(anchor, markers, min_scale, i);
        }
    }
}

/// The largest zoom at which everything fits; the least zoom if nothing does. `fits` tells of
/// the zooms from the least on whether everything fits.
pub open spec fn zoom_from(fits: Seq<bool>) -> u8
    decreases fits.len(),
{
    if fits.len() <= 1 {
        FIT_ZOOM_MIN
    } else if fits.last() {
        (FIT_ZOOM_MIN + fits.len() - 1) as u8
    } else {
        zoom_from(fits.drop_last())
    }
}

/// Picks the largest zoom at which everything fits.
pub fn pick_zoom(fits: &[bool; 5]) -> (r: u8)
    ensures
        r == zoom_from(fits@),
        FIT_ZOOM_MIN <= r <= FIT_ZOOM_MAX,
{
    let mut n: usize = 5;
    assert(fits@.take(5) =~= fits@);
    while n > 1
        invariant
            1 <= n <= 5,
            fits@.len() == 5,
            zoom_from(fits@) == zoom_from(fits@.take(n as int)),
        decreases n,
    {
        assert(fits@.take(n as int).drop_last() =~= fits@.take(n - 1));
        assert(fits@.take(n as int).last() == fits@[n - 1]);
        if fits[n - 1] {
            return FIT_ZOOM_MIN + (n as u8 - 1);
        }
        n = n - 1;
    }
    FIT_ZOOM_MIN
}

/// The zoom that is picked is one at which everything fits, unless it is the least, and there
/// is no larger one.
pub proof fn lemma_largest_fitting_zoom(fits: Seq<bool>)
    requires
        0 < fits.len() <= 5,
    ensures
        FIT_ZOOM_MIN <= zoom_from(fits) < FIT_ZOOM_MIN + fits.len(),
        zoom_from(fits) > FIT_ZOOM_MIN ==> fits[zoom_from(fits) - FIT_ZOOM_MIN],
        forall|i: int| 0 <= i < fits.len() && #[trigger] fits[i] ==> FIT_ZOOM_MIN + i <= zoom_from(
            fits,
        ),
    decreases fits.len(),
{
    if fits.len() > 1 && !fits.last() {
        let rest = fits.drop_last();
        lemma_largest_fitting_zoom(rest);
        assert forall|i: int| 0 <= i < fits.len() && #[trigger] fits[i] implies FIT_ZOOM_MIN + i
            <= zoom_from(fits) by {
            if i < rest.len() {
                assert(rest[i] == fits[i]);
            }
        }
    }
}

/// How many markers lie in a view.
pub open spec fn inside(view: Bounds, markers: Seq<Marker>) -> nat
    decreases markers.len(),
{
    if markers.len() == 0 {
        0
    } else {
        let before = inside(view, markers.drop_last());
        if view.holds((markers.last().latitude, markers.last().longitude)) {
            before + 1
        } else {
            before
        }
    }
}

/// Counts the markers in a view; the others are cut off and hide nothing.
pub fn count_within(view: Bounds, markers: &[Marker]) -> (r: usize)
    ensures
        r == inside(view, markers@),
{
    let mut n: usize = 0;
    let len: usize = markers.len();
    for i in 0..len
        invariant
            len == markers@.len(),
            n == inside(view, markers@.take(i as int)),
            n <= i,
    {
        let m = markers[i];
        assert(markers@.take(i + 1).drop_last() =~= markers@.take(i as int));
        if view.lat_min.le(m.latitude) && m.latitude.le(view.lat_max) && view.lon_min.le(
            m.longitude,
        ) && m.longitude.le(view.lon_max) {
            n = n + 1;
        }
    }
    assert(markers@.take(len as int) =~= markers@);
    n
}

/// The radii of a marker and of its middle, in tenths of a pixel: the more markers, the
/// smaller they are.
pub open spec fn radii(count: nat) -> (u32, u32) {
    if count <= 15 {
        (120, 90)
    } else if count <= 60 {
        (90, 65)
    } else if count <= 200 {
        (70, 50)
    } else {
        (55, 40)
    }
}

/// The radii of a marker and of its middle, in tenths of a pixel.
pub fn marker_radii(count: usize) -> (r: (u32, u32))
    ensures
        r == radii(count as nat),
{
    if count <= 15 {
        (120, 90)
    } else if count <= 60 {
        (90, 65)
    } else if count <= 200 {
        (70, 50)
    } else {
        (55, 40)
    }
}

/// More markers are never drawn larger, and the middle of a marker never covers its edge.
pub proof fn lemma_radii_shrink(a: nat, b: nat)
    requires
        a <= b,
    ensures
        radii(b).0 <= radii(a).0,
        radii(b).1 <= radii(a).1,
        radii(a).1 < radii(a).0,
{
}

/// Markers with one more, which goes before those at the end that are stronger.
pub open spec fn slotted(list: Seq<Marker>, m: Marker) -> Seq<Marker>
    decreases list.len(),
{
    if list.len() > 0 && m.scale < list.last().scale {
        slotted(list.drop_last(), m).push(list.last())
    } else {
        list.push(m)
    }
}

/// Markers from the weakest to the strongest; equal ones stay in order.
pub open spec fn by_strength(list: Seq<Marker>) -> Seq<Marker>
    decreases list.len(),
{
    if list.len() == 0 {
        list
    } else {
        slotted(by_strength(list.drop_last()), list.last())
    }
}

/// Puts markers in the order in which they are drawn: strong shaking on top.
fn ordered(markers: &[Marker]) -> (r: Vec<Marker>)
    ensures
        r@ == by_strength(markers@),
{
    let mut out: Vec<Marker> = Vec::new();
    for k in 0..markers.len()
        invariant
            out@ == by_strength(markers@.take(k as int)),
    {
        let m = markers[k];
        proof {
            assert(markers@.take(k + 1).drop_last() =~= markers@.take(k as int));
        }
        let ghost all = out@;
        let mut i: usize = out.len();
        assert(all.take(i as int) =~= all);
        assert(slotted(all, m) + all.skip(i as int) =~= slotted(all, m));
        while i > 0 && m.scale < out[i - 1].scale
            invariant
                i <= out@.len(),
                out@ == all,
                slotted(all, m) == slotted(all.take(i as int), m) + all.skip(i as int),
            decreases i,
        {
            proof {
                assert(all.take(i as int).drop_last() =~= all.take(i - 1));
                assert(slotted(all.take(i - 1), m).push(all[i - 1]) + all.skip(i as int)
                    =~= slotted(all.take(i - 1), m) + all.skip(i - 1));
            }
            i = i - 1;
        }
        out.insert(i, m);
        assert(out@ =~= all.take(i as int).push(m) + all.skip(i as int));
    }
    assert(markers@.take(markers@.len() as int) =~= markers@);
    out
}

/// The strongest markers are drawn last, and every marker is drawn.
pub proof fn lemma_strong_on_top(markers: Seq<Marker>)
    ensures
        forall|i: int, j: int|
            0 <= i <= j < by_strength(markers).len() ==> (#[trigger] by_strength(markers)[i]).scale
                <= (#[trigger] by_strength(markers)[j]).scale,
        by_strength(markers).to_multiset() == markers.to_multiset(),
        by_strength(markers).len() == markers.len(),
    decreases markers.len(),
{
    broadcast use vstd::seq_lib::group_to_multiset_ensures;

    if markers.len() > 0 {
        let before = by_strength(markers.drop_last());
        lemma_strong_on_top(markers.drop_last());
        lemma_slotted(before, markers.last());
        assert(markers =~= markers.drop_last().push(markers.last()));
    }
}

proof fn lemma_slotted(list: Seq<Marker>, m: Marker)
    requires
        forall|i: int, j: int|
            0 <= i <= j < list.len() ==> (#[trigger] list[i]).scale <= (#[trigger] list[j]).scale,
    ensures
        slotted(list, m).len() == list.len() + 1,
        forall|i: int, j: int|
            0 <= i <= j < slotted(list, m).len() ==> (#[trigger] slotted(list, m)[i]).scale <= (
            #[trigger] slotted(list, m)[j]).scale,
        slotted(list, m).to_multiset() == list.to_multiset().insert(m),
        forall|i: int|
            0 <= i < slotted(list, m).len() ==> (#[trigger] slotted(list, m)[i]) == m
                || list.contains(slotted(list, m)[i]),
    decreases list.len(),
{
    broadcast use vstd::seq_lib::group_to_multiset_ensures;

    let out = slotted(list, m);
    if list.len() > 0 && m.scale < list.last().scale {
        let rest = list.drop_last();
        assert forall|i: int, j: int| 0 <= i <= j < rest.len() implies (#[trigger] rest[i]).scale
            <= (#[trigger] rest[j]).scale by {
            assert(rest[i] == list[i] && rest[j] == list[j]);
        }
        lemma_slotted(rest, m);
        let inner = slotted(rest, m);
        assert(list =~= rest.push(list.last()));
        assert forall|i: int| 0 <= i < out.len() implies (#[trigger] out[i]) == m || list.contains(
            out[i],
        ) by {
            if i < inner.len() {
                assert(out[i] == inner[i]);
                if inner[i] != m {
                    let k = choose|k: int| 0 <= k < rest.len() && rest[k] == inner[i];
                    assert(list[k] == inner[i]);
                }
            } else {
                assert(list[list.len() - 1] == out[i]);
            }
        }
        assert forall|i: int, j: int| 0 <= i <= j < out.len() implies (#[trigger] out[i]).scale <= (
        #[trigger] out[j]).scale by {
            if j < inner.len() {
                assert(out[i] == inner[i] && out[j] == inner[j]);
            } else if i < inner.len() {
                assert(out[i] == inner[i]);
                if inner[i] != m {
                    let k = choose|k: int| 0 <= k < rest.len() && rest[k] == inner[i];
                    assert(list[k].scale <= list[list.len() - 1].scale);
                }
            }
        }
        assert(out.to_multiset() =~= list.to_multiset().insert(m));
    } else {
        assert forall|i: int| 0 <= i < out.len() implies (#[trigger] out[i]) == m || list.contains(
            out[i],
        ) by {
            if i < list.len() {
                assert(list[i] == out[i]);
            }
        }
        assert forall|i: int, j: int| 0 <= i <= j < out.len() implies (#[trigger] out[i]).scale <= (
        #[trigger] out[j]).scale by {
            if i < list.len() && list.len() > 0 {
                assert(list[i].scale <= list[list.len() - 1].scale);
            }
        }
    }
}

/// A filled circle on a map.
#[derive(Debug, Clone, Copy, PartialEq, Eq)]
pub struct Circle {
    pub latitude: Real,
    pub longitude: Real,
    /// Red, green and blue.
    pub color: (u8, u8, u8),
    /// In tenths of a pixel.
    pub radius: u32,
}

/// The edge of an observed point.
pub const WHITE: (u8, u8, u8) = (255, 255, 255);

/// The edge of an epicenter.
pub const BLACK: (u8, u8, u8) = (0, 0, 0);

/// The radii of an epicenter and of its middle, in tenths of a pixel.
pub const EPICENTER_RADII: (u32, u32) = (140, 100);

/// A mark: a circle for its edge, and on it one in the colour of the intensity.
pub open spec fn mark(m: Marker, edge: (u8, u8, u8), r: (u32, u32)) -> Seq<Circle> {
    seq![
        Circle { latitude: m.latitude, longitude: m.longitude, color: edge, radius: r.0 },
        Circle {
            latitude: m.latitude,
            longitude: m.longitude,
            color: palette(m.scale),
            radius: r.1,
        },
    ]
}

/// The marks of observed points, one on the other.
pub open spec fn marks(markers: Seq<Marker>, r: (u32, u32)) -> Seq<Circle>
    decreases markers.len(),
{
    if markers.len() == 0 {
        Seq::empty()
    } else {
        marks(markers.drop_last(), r) + mark(markers.last(), WHITE, r)
    }
}

fn push_mark(circles: &mut Vec<Circle>, m: Marker, edge: (u8, u8, u8), r: (u32, u32))
    ensures
        final(circles)@ == old(circles)@ + mark(m, edge, r),
{
    let ghost before = circles@;
    circles.push(
        Circle { latitude: m.latitude, longitude: m.longitude, color: edge, radius: r.0 },
    );
    circles.push(
        Circle {
            latitude: m.latitude,
            longitude: m.longitude,
            color: marker_rgb(m.scale),
            radius: r.1,
        },
    );
    assert(circles@ =~= before + mark(m, edge, r));
}

fn push_marks(circles: &mut Vec<Circle>, markers: &[Marker], view: Bounds)
    ensures
        final(circles)@ == old(circles)@ + marks(
            by_strength(markers@),
            radii(inside(view, markers@)),
        ),
{
    let r: (u32, u32) = marker_radii(count_within(view, markers));
    let list = ordered(markers);
    let ghost before = circles@;
    assert(circles@ =~= before + marks(list@.take(0), r));
    for i in 0..list.len()
        invariant
            circles@ == before + marks(list@.take(i as int), r),
    {
        assert(list@.take(i + 1).drop_last() =~= list@.take(i as int));
        push_mark(circles, list[i], WHITE, r);
        assert(circles@ =~= before + marks(list@.take(i + 1), r));
    }
    assert(list@.take(list@.len() as int) =~= list@);
}

/// What is drawn, and the part of the globe that is shown. Without one the map shows what is
/// drawn, at a fixed zoom.
#[derive(Debug)]
pub struct Drawing {
    pub view: Option<Bounds>,
    pub circles: Vec<Circle>,
}

/// Draws an epicenter and the observed points. The epicenter has a black edge and lies on
/// top; alone it has a white one.
pub fn quake_drawing(epicenter: Marker, markers: &[Marker], view: Bounds) -> (r: Drawing)
    ensures
        if markers@.len() == 0 {
            r.view is None && r.circles@ == mark(epicenter, WHITE, EPICENTER_RADII)
        } else {
            r.view == Some(view) && r.circles@ == marks(
                by_strength(markers@),
                radii(inside(view, markers@)),
            ) + mark(epicenter, BLACK, EPICENTER_RADII)
        },
{
    let mut circles: Vec<Circle> = Vec::new();
    let n: usize = markers.len();
    if n == 0 {
        push_mark(&mut circles, epicenter, WHITE, EPICENTER_RADII);
        assert(circles@ =~= mark(epicenter, WHITE, EPICENTER_RADII));
        return Drawing { view: None, circles };
    }
    push_marks(&mut circles, markers, view);
    push_mark(&mut circles, epicenter, BLACK, EPICENTER_RADII);
    assert(circles@ =~= marks(by_strength(markers@), radii(inside(view, markers@))) + mark(
        epicenter,
        BLACK,
        EPICENTER_RADII,
    ));
    Drawing { view: Some(view), circles }
}

/// Draws the observed points alone; `None` if there are none.
pub fn markers_drawing(markers: &[Marker], view: Bounds) -> (r: Option<Drawing>)
    ensures
        match r {
            Some(d) => {
                &&& markers@.len() > 0
                &&& d.view == Some(view)
                &&& d.circles@ == marks(by_strength(markers@), radii(inside(view, markers@)))
            },
            None => markers@.len() == 0,
        },
{
    let n: usize = markers.len();
    if n == 0 {
        return None;
    }
    let mut circles: Vec<Circle> = Vec::new();
    push_marks(&mut circles, markers, view);
    assert(circles@ =~= marks(by_strength(markers@), radii(inside(view, markers@))));
    Some(Drawing { view: Some(view), circles })
}

/// An image, four bytes to a pixel.
#[derive(Debug)]
pub struct Pixels {
    pub width: u32,
    pub height: u32,
    pub rgba: Vec<u8>,
}

/// The width, the height and the RGBA bytes of a PNG image; `None` if it is none.
pub uninterp spec fn png_pixels(png: Seq<u8>) -> Option<(u32, u32, Seq<u8>)>;

/// The width, the height and the RGBA bytes of a lossless WebP image; `None` if it is none.
pub uninterp spec fn webp_pixels(webp: Seq<u8>) -> Option<(u32, u32, Seq<u8>)>;

/// Trusted: `image::load_from_memory_with_format` for PNG, brought to RGBA by `to_rgba8`, is a
/// function of the bytes, and gives at least four bytes for each pixel.
#[verifier::external_body]
fn decode_png(png: &[u8]) -> (r: Option<Pixels>)
    ensures
        match r {
            Some(p) => {
                &&& png_pixels(png@) == Some((p.width, p.height, p.rgba@))
                &&& p.rgba@.len() >= p.width * p.height * 4
            },
            None => png_pixels(png@) is None,
        },
{
    let decoded = image::load_from_memory_with_format(png, image::ImageFormat::Png).ok()?;
    let rgba = decoded.to_rgba8();
    let (width, height) = rgba.dimensions();
    Some(Pixels { width, height, rgba: rgba.into_raw() })
}

/// Whether WebP has room for an image of that size.
pub open spec fn encodable(width: u32, height: u32) -> bool {
    1 <= width <= 16383 && 1 <= height <= 16383
}

/// How opaque a pixel is, counted along the rows.
pub open spec fn opacity(rgba: Seq<u8>, i: int) -> u8 {
    rgba[4 * i + 3]
}

/// Whether something shows through an image.
pub open spec fn translucent(width: u32, height: u32, rgba: Seq<u8>) -> bool {
    exists|i: int| 0 <= i < width * height && #[trigger] opacity(rgba, i) != 255
}

/// Whether bytes bear the marks of a lossless WebP file: those of the container, and that of
/// the lossless stream.
pub open spec fn lossless_webp(bytes: Seq<u8>) -> bool {
    &&& bytes.len() >= 16
    &&& bytes.subrange(0, 4) == seq![0x52u8, 0x49u8, 0x46u8, 0x46u8]
    &&& bytes.subrange(8, 16) == seq![
        0x57u8,
        0x45u8,
        0x42u8,
        0x50u8,
        0x56u8,
        0x50u8,
        0x38u8,
        0x4cu8,
    ]
}

/// Whether bytes begin as a lossless WebP file of an image: the marks, then, from the lowest
/// bit on, fourteen bits for the width less one and for the height less one, a bit that tells
/// whether something shows through, and three bits for the version, which is zero.
pub open spec fn webp_file(bytes: Seq<u8>, width: u32, height: u32, rgba: Seq<u8>) -> bool {
    &&& lossless_webp(bytes)
    &&& bytes.len() >= 25
    &&& bytes[20] == 0x2f
    &&& bytes[21] + 256 * (bytes[22] as int % 64) == width - 1
    &&& bytes[22] as int / 64 + 4 * bytes[23] + 1024 * (bytes[24] as int % 16) == height - 1
    &&& bytes[24] as int / 16 == (if translucent(width, height, rgba) {
        1int
    } else {
        0int
    })
}

/// Whether two images of one size look the same: every pixel is as opaque in the one as in the
/// other, and of the same colour, unless it cannot be seen at all.
pub open spec fn same_picture(width: u32, height: u32, a: Seq<u8>, b: Seq<u8>) -> bool {
    forall|i: int|
        #![trigger opacity(a, i)]
        #![trigger opacity(b, i)]
        0 <= i < width * height ==> {
            &&& opacity(a, i) == opacity(b, i)
            &&& opacity(a, i) != 0 ==> {
                &&& a[4 * i] == b[4 * i]
                &&& a[4 * i + 1] == b[4 * i + 1]
                &&& a[4 * i + 2] == b[4 * i + 2]
            }
        }
}

/// Whether what is read from a WebP file looks the same as an image.
pub open spec fn reads_back(webp: Seq<u8>, width: u32, height: u32, rgba: Seq<u8>) -> bool {
    match webp_pixels(webp) {
        Some((w, h, seen)) => w == width && h == height && same_picture(width, height, rgba, seen),
        None => false,
    }
}

/// Trusted: `webp::Encoder::from_rgba` with `encode_simple`, lossless, refuses an image whose
/// sides are not between 1 and 16383. What it writes of another begins as a lossless WebP file
/// of that size, and the decoder of the same crate reads the image back from it, but for the
/// colours of what is fully transparent, which the encoder is free to change. The encoder panics
/// on a buffer that is too short, and computes the length of a row in a signed 32-bit number.
/// It is called with the effort of the library alone. Which bytes follow is left unsaid, for the
/// encoder weighs its choices in floating point, with other results on other processors; so is
/// that every image of a fit size is encoded, for the memory may not suffice.
#[verifier::external_body]
fn encode_lossless(p: &Pixels, effort: u8) -> (r: Option<Vec<u8>>)
    requires
        p.rgba@.len() >= p.width * p.height * 4,
        p.width <= 0x1fff_ffff,
        effort == WEBP_EFFORT,
    ensures
        !encodable(p.width, p.height) ==> r is None,
        r matches Some(bytes) ==> webp_file(bytes@, p.width, p.height, p.rgba@),
        r matches Some(bytes) ==> reads_back(bytes@, p.width, p.height, p.rgba@),
{
    let encoder = webp::Encoder::from_rgba(&p.rgba, p.width, p.height);
    encoder.encode_simple(true, effort.into()).ok().map(|memory| memory.to_vec())
}

/// Trusted: what `webp::Decoder::decode` gives of a lossless WebP file, brought to RGBA by
/// `to_image` and `to_rgba8`, is a function of the bytes, with four bytes for each pixel. When it
/// gives nothing, which may be for want of memory, nothing is said.
#[verifier::external_body]
fn decode_lossless(webp: &[u8]) -> (r: Option<Pixels>)
    requires
        lossless_webp(webp@),
    ensures
        r matches Some(p) ==> webp_pixels(webp@) == Some((p.width, p.height, p.rgba@)),
        r matches Some(p) ==> p.rgba@.len() == p.width * p.height * 4,
{
    let rgba = webp::Decoder::new(webp).decode()?.to_image().to_rgba8();
    let (width, height) = rgba.dimensions();
    Some(Pixels { width, height, rgba: rgba.into_raw() })
}

/// Why an image has no WebP form.
#[derive(Debug, Clone, Copy, PartialEq, Eq, Structural)]
pub enum WebpError {
    /// The PNG could not be read.
    Unreadable,
    /// The image could not be encoded.
    Unencodable,
}

/// Whether a result is one for an image that was read from a PNG, or for none: a WebP file of
/// that image which shows it again, if there is room for it in WebP, or the refusal that is due.
pub open spec fn webp_of(
    image: Option<(u32, u32, Seq<u8>)>,
    r: Result<Vec<u8>, WebpError>,
) -> bool {
    match image {
        Some((width, height, rgba)) => match r {
            Ok(bytes) => {
                &&& encodable(width, height)
                &&& webp_file(bytes@, width, height, rgba)
                &&& reads_back(bytes@, width, height, rgba)
            },
            Err(e) => e == WebpError::Unencodable,
        },
        None => r == Err::<Vec<u8>, WebpError>(WebpError::Unreadable),
    }
}

/// What comes of an image that was read, by what the encoder made of it.
pub fn encoded(bytes: Option<Vec<u8>>) -> (r: Result<Vec<u8>, WebpError>)
    ensures
        r == match bytes {
            Some(b) => Ok::<Vec<u8>, WebpError>(b),
            None => Err::<Vec<u8>, WebpError>(WebpError::Unencodable),
        },
{
    match bytes {
        Some(b) => Ok(b),
        None => Err(WebpError::Unencodable),
    }
}

/// Encodes an image that was read from a PNG. Maps have fine lines, so nothing is lost.
pub fn encode_pixels(image: Option<Pixels>) -> (r: Result<Vec<u8>, WebpError>)
    requires
        image matches Some(p) ==> p.rgba@.len() >= p.width * p.height * 4,
    ensures
        webp_of(
            match image {
                Some(p) => Some((p.width, p.height, p.rgba@)),
                None => None,
            },
            r,
        ),
{
    match image {
        Some(p) => if p.width > 0x1fff_ffff {
            encoded(None)
        } else {
            encoded(encode_lossless(&p, WEBP_EFFORT))
        },
        None => Err(WebpError::Unreadable),
    }
}

/// Turns a PNG into a WebP image, which is lighter.
pub fn encode_webp(png: &[u8]) -> (r: Result<Vec<u8>, WebpError>)
    ensures
        webp_of(png_pixels(png@), r),
{
    encode_pixels(decode_png(png))
}

/// Whether bytes bear the marks of a lossless WebP file.
fn has_lossless_marks(bytes: &[u8]) -> (r: bool)
    ensures
        r == lossless_webp(bytes@),
{
    if bytes.len() < 16 {
        return false;
    }
    let riff = bytes[0] == 0x52 && bytes[1] == 0x49 && bytes[2] == 0x46 && bytes[3] == 0x46;
    let webp = bytes[8] == 0x57 && bytes[9] == 0x45 && bytes[10] == 0x42 && bytes[11] == 0x50;
    let vp8l = bytes[12] == 0x56 && bytes[13] == 0x50 && bytes[14] == 0x38 && bytes[15] == 0x4c;
    proof {
        let (a, b) = (bytes@.subrange(0, 4), bytes@.subrange(8, 16));
        assert(a[0] == bytes@[0] && a[1] == bytes@[1] && a[2] == bytes@[2] && a[3] == bytes@[3]);
        assert(b[0] == bytes@[8] && b[1] == bytes@[9] && b[2] == bytes@[10] && b[3] == bytes@[11]);
        assert(b[4] == bytes@[12] && b[5] == bytes@[13]);
        assert(b[6] == bytes@[14] && b[7] == bytes@[15]);
        if riff && webp && vp8l {
            assert(a =~= seq![0x52u8, 0x49u8, 0x46u8, 0x46u8]);
            assert(b =~= seq![
                0x57u8,
                0x45u8,
                0x42u8,
                0x50u8,
                0x56u8,
                0x50u8,
                0x38u8,
                0x4cu8,
            ]);
        }
    }
    riff && webp && vp8l
}

/// Reads a lossless WebP image, as `encode_webp` writes it; `None` if it is none, or cannot be
/// read.
pub fn read_webp(webp: &[u8]) -> (r: Option<Pixels>)
    ensures
        !lossless_webp(webp@) ==> r is None,
        r matches Some(p) ==> webp_pixels(webp@) == Some((p.width, p.height, p.rgba@)),
        r matches Some(p) ==> p.rgba@.len() == p.width * p.height * 4,
{
    if has_lossless_marks(webp) {
        decode_lossless(webp)
    } else {
        None
    }
}

/// Nothing that can be seen is lost: what is read from a file that was written for an image
/// looks the same as the image.
pub proof fn lemma_maps_are_kept(image: (u32, u32, Seq<u8>), bytes: Vec<u8>, read: Pixels)
    ensures
        webp_of(Some(image), Ok(bytes)) && webp_pixels(bytes@) == Some(
            (read.width, read.height, read.rgba@),
        ) ==> {
            &&& read.width == image.0
            &&& read.height == image.1
            &&& same_picture(image.0, image.1, image.2, read.rgba@)
        },
{
}

} // verus!
