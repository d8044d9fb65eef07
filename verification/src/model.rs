//! The reports of the P2P earthquake feed.
//!
//! Messages carry a `code`: earthquake reports (551), tsunami forecasts (552) and
//! earthquake early warnings (556) are used here.

use vstd::prelude::*;

use crate::reading::{Measure, Real};
use crate::text::same;

verus! {

/// The part that every message has.
#[derive(Debug, Clone, Copy)]
pub struct Envelope {
    pub code: i32,
}

/// What kind of earthquake report this is.
#[derive(Debug, Clone)]
pub struct QuakeIssue {
    /// `ScalePrompt` for the prompt report, `DetailScale` and others for detailed ones.
    pub issue_type: String,
}

impl QuakeIssue {
    /// The prompt report, which comes before the hypocenter is known.
    pub open spec fn prompt(self) -> bool {
        self.issue_type@ == "ScalePrompt"@
    }

    /// Whether this is the prompt report.
    pub fn is_prompt(&self) -> (r: bool)
        ensures
            r == self.prompt(),
    {
        same(self.issue_type.as_str(), "ScalePrompt")
    }
}

/// An earthquake report (551).
#[derive(Debug, Clone)]
pub struct JmaQuake {
    pub code: i32,
    pub issue: QuakeIssue,
    pub earthquake: Earthquake,
    pub points: Vec<Point>,
}

/// The earthquake itself.
#[derive(Debug, Clone)]
pub struct Earthquake {
    /// When it happened, as in `2026/06/26 12:34:00`; empty if unknown.
    pub time: String,
    pub hypocenter: Hypocenter,
    /// The largest intensity: 10=1, 20=2, 30=3, 40=4, 45=5-, 50=5+, 55=6-, 60=6+, 70=7, -1=unknown.
    pub max_scale: i32,
    /// `None`, `Unknown`, `Checking`, `NonEffective`, `Watch` or `Warning`.
    pub domestic_tsunami: String,
}

/// Where an earthquake began.
#[derive(Debug, Clone)]
pub struct Hypocenter {
    /// The name of the area; empty if unknown.
    pub name: String,
    /// Degrees north; out of range (such as -200) if unknown.
    pub latitude: Real,
    /// Degrees east; out of range (such as -200) if unknown.
    pub longitude: Real,
    /// Kilometres; negative if unknown. Shown without its fraction.
    pub depth: Measure,
    /// Negative if unknown. Shown with one decimal.
    pub magnitude: Measure,
}

/// An observed intensity.
#[derive(Debug, Clone)]
pub struct Point {
    /// The prefecture.
    pub pref: String,
    /// The station, or the area in a prompt report.
    pub addr: String,
    /// Whether `addr` names an area instead of a station.
    pub is_area: bool,
    /// The intensity, on the scale of `Earthquake::max_scale`.
    pub scale: i32,
}

/// An earthquake early warning (556).
#[derive(Debug, Clone)]
pub struct Eew {
    pub code: i32,
    /// The warning is withdrawn.
    pub cancelled: bool,
    pub issue: EewIssue,
    pub earthquake: EewEarthquake,
    pub areas: Vec<EewArea>,
}

/// Which warning this is.
#[derive(Debug, Clone)]
pub struct EewIssue {
    /// Common to all warnings about one earthquake.
    pub event_id: String,
    pub serial: String,
    pub time: String,
}

/// The earthquake a warning is about.
#[derive(Debug, Clone)]
pub struct EewEarthquake {
    pub hypocenter: Hypocenter,
}

/// An area with a forecast intensity.
#[derive(Debug, Clone)]
pub struct EewArea {
    /// The prefecture, without the suffix.
    pub pref: String,
    pub name: String,
    /// The lower bound of the forecast.
    pub scale_from: i32,
    /// The upper bound of the forecast; 99 if there is none.
    pub scale_to: i32,
}

/// A tsunami forecast (552).
#[derive(Debug, Clone)]
pub struct Tsunami {
    pub id: String,
    /// All forecasts are lifted.
    pub cancelled: bool,
    pub issue: TsunamiIssue,
    pub areas: Vec<TsunamiArea>,
}

/// When a tsunami forecast was issued.
#[derive(Debug, Clone)]
pub struct TsunamiIssue {
    pub time: String,
}

/// A coast with a tsunami forecast.
#[derive(Debug, Clone)]
pub struct TsunamiArea {
    /// `MajorWarning`, `Warning`, `Watch` or unknown.
    pub grade: String,
    /// The tsunami may arrive at once.
    pub immediate: bool,
    pub name: String,
}

/// The bits of 90 degrees.
pub const DEGREES_90: u64 = 0x4056_8000_0000_0000;

/// The bits of 180 degrees.
pub const DEGREES_180: u64 = 0x4066_8000_0000_0000;

/// A latitude and a longitude on the globe, other than the placeholder of zero and zero.
pub open spec fn on_globe(latitude: Real, longitude: Real) -> bool {
    &&& latitude.within(Real { bits: DEGREES_90 })
    &&& longitude.within(Real { bits: DEGREES_180 })
    &&& !(latitude.rank() == 0 && longitude.rank() == 0)
}

/// Whether a latitude and a longitude can be drawn on a map.
pub fn can_be_drawn(latitude: Real, longitude: Real) -> (r: bool)
    ensures
        r == on_globe(latitude, longitude),
{
    latitude.is_within(Real { bits: DEGREES_90 }) && longitude.is_within(
        Real { bits: DEGREES_180 },
    ) && !(latitude.is_zero() && longitude.is_zero())
}

impl Hypocenter {
    /// Whether the hypocenter can be drawn on a map.
    pub fn has_valid_coords(&self) -> (r: bool)
        ensures
            r == on_globe(self.latitude, self.longitude),
    {
        can_be_drawn(self.latitude, self.longitude)
    }
}

impl Default for Hypocenter {
    fn default() -> (r: Self)
        ensures
            r.name@ == Seq::<char>::empty(),
            r.latitude.bits == 0,
            r.longitude.bits == 0,
            r.depth.value.bits == 0,
            r.depth.shown@ == "0"@,
            r.magnitude.value.bits == 0,
            r.magnitude.shown@ == "0.0"@,
    {
        Hypocenter {
            name: String::new(),
            latitude: Real::zero(),
            longitude: Real::zero(),
            depth: Measure { value: Real::zero(), shown: "0".to_owned() },
            magnitude: Measure { value: Real::zero(), shown: "0.0".to_owned() },
        }
    }
}

impl Default for Earthquake {
    fn default() -> (r: Self)
        ensures
            r.time@ == Seq::<char>::empty(),
            r.hypocenter.name@ == Seq::<char>::empty(),
            r.hypocenter.latitude.bits == 0,
            r.hypocenter.longitude.bits == 0,
            r.hypocenter.depth.value.bits == 0,
            r.hypocenter.depth.shown@ == "0"@,
            r.hypocenter.magnitude.value.bits == 0,
            r.hypocenter.magnitude.shown@ == "0.0"@,
            r.max_scale == 0,
            r.domestic_tsunami@ == Seq::<char>::empty(),
    {
        Earthquake {
            time: String::new(),
            hypocenter: Hypocenter::default(),
            max_scale: 0,
            domestic_tsunami: String::new(),
        }
    }
}

/// The intensity of a point or an area that names none.
pub fn minus_one() -> (r: i32)
    ensures
        r == -1,
{
    -1
}

} // verus!
