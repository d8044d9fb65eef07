//! The intensity scale, and the rules by which a report is announced.

use vstd::prelude::*;
use vstd::string::*;

use crate::model::{Earthquake, EewArea, Point};
use crate::text::{distinct, holds, join, joined, lemma_distinct_push, same, texts};

verus! {

/// A prefecture's name without its suffix: a final 都, 府 or 県 is dropped, 道 is kept.
/// The 都 of 京都 belongs to the name.
pub open spec fn pref_key(pref: Seq<char>) -> Seq<char> {
    if pref == "京都"@ {
        pref
    } else if pref.len() > 0 && (pref.last() == '都' || pref.last() == '府' || pref.last() == '県') {
        pref.drop_last()
    } else {
        pref
    }
}

/// Drops the suffix of a prefecture's name, so that both forms in use (東京都 in
/// earthquake reports, 東京 in early warnings) give one key.
pub fn normalize_pref(pref: &str) -> (r: &str)
    ensures
        r@ == pref_key(pref@),
{
    let n: usize = pref.unicode_len();
    if n == 0 || same(pref, "京都") {
        return pref;
    }
    let last: char = pref.get_char(n - 1);
    if last == '都' || last == '府' || last == '県' {
        assert(pref@.subrange(0, n - 1) =~= pref@.drop_last());
        pref.substring_char(0, n - 1)
    } else {
        pref
    }
}

/// The region that a prefecture (by its key) lies in.
pub open spec fn region_name(p: Seq<char>) -> Option<Seq<char>> {
    if p == "北海道"@ {
        Some("北海道"@)
    } else if p == "青森"@ || p == "岩手"@ || p == "宮城"@ || p == "秋田"@ || p == "山形"@ || p == "福島"@ {
        Some("東北"@)
    } else if p == "茨城"@ || p == "栃木"@ || p == "群馬"@ || p == "埼玉"@ || p == "千葉"@ || p == "東京"@ || p == "神奈川"@ {
        Some("関東"@)
    } else if p == "新潟"@ || p == "富山"@ || p == "石川"@ || p == "福井"@ || p == "山梨"@ || p == "長野"@ || p == "岐阜"@ || p == "静岡"@ || p == "愛知"@ {
        Some("中部"@)
    } else if p == "三重"@ || p == "滋賀"@ || p == "京都"@ || p == "大阪"@ || p == "兵庫"@ || p == "奈良"@ || p == "和歌山"@ {
        Some("近畿"@)
    } else if p == "鳥取"@ || p == "島根"@ || p == "岡山"@ || p == "広島"@ || p == "山口"@ {
        Some("中国"@)
    } else if p == "徳島"@ || p == "香川"@ || p == "愛媛"@ || p == "高知"@ {
        Some("四国"@)
    } else if p == "福岡"@ || p == "佐賀"@ || p == "長崎"@ || p == "熊本"@ || p == "大分"@ || p == "宮崎"@ || p == "鹿児島"@ || p == "沖縄"@ {
        Some("九州"@)
    } else {
        None
    }
}

/// The names of the eight regions.
pub open spec fn is_region(name: Seq<char>) -> bool {
    name == "北海道"@ || name == "東北"@ || name == "関東"@ || name == "中部"@ || name == "近畿"@ || name == "中国"@ || name == "四国"@ || name == "九州"@
}

/// Whether a name is that of a region.
pub fn known_region(name: &str) -> (r: bool)
    ensures
        r == is_region(name@),
{
    same(name, "北海道") || same(name, "東北") || same(name, "関東") || same(name, "中部") || same(name, "近畿") || same(name, "中国") || same(name, "四国") || same(name, "九州")
}

/// The region that a prefecture lies in, with or without the suffix in its name.
pub fn region_of(pref: &str) -> (r: Option<&'static str>)
    ensures
        r is Some == region_name(pref_key(pref@)) is Some,
        r is Some ==> r->0@ == region_name(pref_key(pref@))->0,
{
    let p = normalize_pref(pref);
    if same(p, "北海道") {
        Some("北海道")
    } else if same(p, "青森") || same(p, "岩手") || same(p, "宮城") || same(p, "秋田") || same(p, "山形") || same(p, "福島") {
        Some("東北")
    } else if same(p, "茨城") || same(p, "栃木") || same(p, "群馬") || same(p, "埼玉") || same(p, "千葉") || same(p, "東京") || same(p, "神奈川") {
        Some("関東")
    } else if same(p, "新潟") || same(p, "富山") || same(p, "石川") || same(p, "福井") || same(p, "山梨") || same(p, "長野") || same(p, "岐阜") || same(p, "静岡") || same(p, "愛知") {
        Some("中部")
    } else if same(p, "三重") || same(p, "滋賀") || same(p, "京都") || same(p, "大阪") || same(p, "兵庫") || same(p, "奈良") || same(p, "和歌山") {
        Some("近畿")
    } else if same(p, "鳥取") || same(p, "島根") || same(p, "岡山") || same(p, "広島") || same(p, "山口") {
        Some("中国")
    } else if same(p, "徳島") || same(p, "香川") || same(p, "愛媛") || same(p, "高知") {
        Some("四国")
    } else if same(p, "福岡") || same(p, "佐賀") || same(p, "長崎") || same(p, "熊本") || same(p, "大分") || same(p, "宮崎") || same(p, "鹿児島") || same(p, "沖縄") {
        Some("九州")
    } else {
        None
    }
}

/// The least intensity that is announced, by region. Where a region is named more
/// than once, its first entry counts.
#[derive(Debug, Clone)]
pub struct RegionScales {
    pub entries: Vec<(String, i32)>,
}

/// The first entry under a name.
pub open spec fn first_entry(entries: Seq<(String, i32)>, name: Seq<char>) -> Option<i32>
    decreases entries.len(),
{
    if entries.len() == 0 {
        None
    } else if entries[0].0@ == name {
        Some(entries[0].1)
    } else {
        first_entry(entries.drop_first(), name)
    }
}

impl RegionScales {
    /// The scale set for a region.
    pub open spec fn scale_of(self, name: Seq<char>) -> Option<i32> {
        first_entry(self.entries@, name)
    }

    /// No region has a scale of its own.
    pub fn new() -> (r: Self)
        ensures
            forall|name: Seq<char>| r.scale_of(name) is None,
    {
        RegionScales { entries: Vec::new() }
    }

    /// The scale set for a region.
    pub fn get(&self, name: &str) -> (r: Option<i32>)
        ensures
            r == self.scale_of(name@),
    {
        let mut i: usize = 0;
        assert(self.entries@.skip(0) =~= self.entries@);
        while i < self.entries.len()
            invariant
                i <= self.entries@.len(),
                self.scale_of(name@) == first_entry(self.entries@.skip(i as int), name@),
            decreases self.entries@.len() - i,
        {
            if same(self.entries[i].0.as_str(), name) {
                return Some(self.entries[i].1);
            }
            assert(self.entries@.skip(i as int).drop_first() =~= self.entries@.skip(i + 1));
            i = i + 1;
        }
        None
    }

    /// Sets the scale of a region and leaves the others as they are.
    pub fn set(&mut self, name: &str, scale: i32)
        ensures
            forall|k: Seq<char>|
                final(self).scale_of(k) == (if k == name@ {
                    Some(scale)
                } else {
                    old(self).scale_of(k)
                }),
    {
        let ghost before = self.entries@;
        self.entries.insert(0, (name.to_owned(), scale));
        assert(self.entries@.drop_first() =~= before);
    }
}

/// The least intensity announced for a prefecture: that of its region, and
/// `other` where the region has none or the prefecture lies in none.
pub open spec fn threshold(pref: Seq<char>, scales: RegionScales, other: i32) -> i32 {
    match region_name(pref_key(pref)) {
        Some(region) => match scales.scale_of(region) {
            Some(s) => s,
            None => other,
        },
        None => other,
    }
}

/// The least intensity announced for a region.
pub fn region_threshold(
    region: Option<&str>,
    region_min_scales: &RegionScales,
    other_min_scale: i32,
) -> (r: i32)
    ensures
        r == (match region {
            Some(name) => match region_min_scales.scale_of(name@) {
                Some(s) => s,
                None => other_min_scale,
            },
            None => other_min_scale,
        }),
{
    match region {
        Some(name) => match region_min_scales.get(name) {
            Some(s) => s,
            None => other_min_scale,
        },
        None => other_min_scale,
    }
}

/// How an intensity is written.
pub open spec fn scale_text(scale: i32) -> Seq<char> {
    if scale == 10 {
        "1"@
    } else if scale == 20 {
        "2"@
    } else if scale == 30 {
        "3"@
    } else if scale == 40 {
        "4"@
    } else if scale == 45 {
        "5弱"@
    } else if scale == 46 {
        "5弱以上"@
    } else if scale == 50 {
        "5強"@
    } else if scale == 55 {
        "6弱"@
    } else if scale == 60 {
        "6強"@
    } else if scale == 70 {
        "7"@
    } else {
        "不明"@
    }
}

/// The intensities that have a name.
pub open spec fn known_scale(scale: i32) -> bool {
    scale == 10 || scale == 20 || scale == 30 || scale == 40 || scale == 45 || scale == 46 || scale
        == 50 || scale == 55 || scale == 60 || scale == 70
}

/// Whether an intensity has a name, that is, reads otherwise than 不明.
pub fn is_known_scale(scale: i32) -> (r: bool)
    ensures
        r == known_scale(scale),
{
    scale == 10 || scale == 20 || scale == 30 || scale == 40 || scale == 45 || scale == 46 || scale
        == 50 || scale == 55 || scale == 60 || scale == 70
}

/// Writes an intensity. 46 stands for an estimate of "5弱 or more".
pub fn scale_label(scale: i32) -> (r: &'static str)
    ensures
        r@ == scale_text(scale),
{
    match scale {
        10 => "1",
        20 => "2",
        30 => "3",
        40 => "4",
        45 => "5弱",
        46 => "5弱以上",
        50 => "5強",
        55 => "6弱",
        60 => "6強",
        70 => "7",
        _ => "不明",
    }
}

/// The colour of an intensity, as red, green and blue: grey, blue, green, yellow, then
/// warm colours from 5弱 on and purple for 7.
pub open spec fn palette(scale: i32) -> (u8, u8, u8) {
    if scale >= 70 {
        (140, 0, 160)
    } else if scale >= 60 {
        (139, 0, 0)
    } else if scale == 55 {
        (224, 0, 0)
    } else if scale == 50 {
        (255, 68, 0)
    } else if scale == 45 || scale == 46 {
        (255, 136, 0)
    } else if scale == 40 {
        (255, 192, 0)
    } else if scale == 30 {
        (0, 176, 80)
    } else if scale == 20 {
        (51, 153, 255)
    } else if scale == 10 {
        (124, 139, 153)
    } else {
        (176, 176, 176)
    }
}

/// Red, green and blue in one number.
pub open spec fn packed(rgb: (u8, u8, u8)) -> int {
    rgb.0 * 0x10000 + rgb.1 * 0x100 + rgb.2
}

/// The colour of an embed: that of the markers, in one number.
pub fn embed_color(scale: i32) -> (r: u32)
    ensures
        r == packed(palette(scale)),
{
    if scale >= 70 {
        0x8C_00_A0
    } else if scale >= 60 {
        0x8B_00_00
    } else if scale == 55 {
        0xE0_00_00
    } else if scale == 50 {
        0xFF_44_00
    } else if scale == 45 || scale == 46 {
        0xFF_88_00
    } else if scale == 40 {
        0xFF_C0_00
    } else if scale == 30 {
        0x00_B0_50
    } else if scale == 20 {
        0x33_99_FF
    } else if scale == 10 {
        0x7C_8B_99
    } else {
        0xB0_B0_B0
    }
}

/// The colour of a map marker.
pub fn marker_rgb(scale: i32) -> (r: (u8, u8, u8))
    ensures
        r == palette(scale),
{
    if scale >= 70 {
        (140, 0, 160)
    } else if scale >= 60 {
        (139, 0, 0)
    } else if scale == 55 {
        (224, 0, 0)
    } else if scale == 50 {
        (255, 68, 0)
    } else if scale == 45 || scale == 46 {
        (255, 136, 0)
    } else if scale == 40 {
        (255, 192, 0)
    } else if scale == 30 {
        (0, 176, 80)
    } else if scale == 20 {
        (51, 153, 255)
    } else if scale == 10 {
        (124, 139, 153)
    } else {
        (176, 176, 176)
    }
}

/// How the tsunami code of an earthquake report reads.
pub open spec fn tsunami_text(code: Seq<char>) -> Seq<char> {
    if code == "None"@ {
        "なし"@
    } else if code == "NonEffective"@ {
        "若干の海面変動（被害の心配なし）"@
    } else if code == "Watch"@ {
        "津波注意報"@
    } else if code == "Warning"@ {
        "津波警報・大津波警報"@
    } else if code == "Checking"@ {
        "調査中"@
    } else {
        "不明"@
    }
}

/// Writes the tsunami code of an earthquake report.
pub fn tsunami_label(code: &str) -> (r: &'static str)
    ensures
        r@ == tsunami_text(code@),
{
    if same(code, "None") {
        "なし"
    } else if same(code, "NonEffective") {
        "若干の海面変動（被害の心配なし）"
    } else if same(code, "Watch") {
        "津波注意報"
    } else if same(code, "Warning") {
        "津波警報・大津波警報"
    } else if same(code, "Checking") {
        "調査中"
    } else {
        "不明"
    }
}

/// The tsunami codes that say something about a tsunami.
pub open spec fn tsunami_expected(code: Seq<char>) -> bool {
    code == "NonEffective"@ || code == "Watch"@ || code == "Warning"@ || code == "Checking"@
}

/// Whether a report says something about a tsunami; "none" and "unknown" do not.
pub fn has_tsunami(code: &str) -> (r: bool)
    ensures
        r == tsunami_expected(code@),
{
    same(code, "NonEffective") || same(code, "Watch") || same(code, "Warning") || same(
        code,
        "Checking",
    )
}

/// How the grade of a tsunami forecast reads.
pub open spec fn grade_text(grade: Seq<char>) -> Seq<char> {
    if grade == "MajorWarning"@ {
        "大津波警報"@
    } else if grade == "Warning"@ {
        "津波警報"@
    } else if grade == "Watch"@ {
        "津波注意報"@
    } else {
        "津波予報"@
    }
}

/// How grave the grade of a tsunami forecast is.
pub open spec fn grade_rank(grade: Seq<char>) -> i32 {
    if grade == "MajorWarning"@ {
        3
    } else if grade == "Warning"@ {
        2
    } else if grade == "Watch"@ {
        1
    } else {
        0
    }
}

/// The colour of a grade.
pub open spec fn grade_color(grade: Seq<char>) -> u32 {
    if grade == "MajorWarning"@ {
        0x99_00_99
    } else if grade == "Warning"@ {
        0xE0_00_00
    } else if grade == "Watch"@ {
        0xFF_C0_00
    } else {
        0x33_99_FF
    }
}

/// Writes the grade of a tsunami forecast.
pub fn tsunami_grade_label(grade: &str) -> (r: &'static str)
    ensures
        r@ == grade_text(grade@),
{
    if same(grade, "MajorWarning") {
        "大津波警報"
    } else if same(grade, "Warning") {
        "津波警報"
    } else if same(grade, "Watch") {
        "津波注意報"
    } else {
        "津波予報"
    }
}

/// Ranks the grade of a tsunami forecast; higher is graver.
pub fn tsunami_grade_rank(grade: &str) -> (r: i32)
    ensures
        r == grade_rank(grade@),
{
    if same(grade, "MajorWarning") {
        3
    } else if same(grade, "Warning") {
        2
    } else if same(grade, "Watch") {
        1
    } else {
        0
    }
}

/// The embed colour of a tsunami forecast.
pub fn tsunami_grade_color(grade: &str) -> (r: u32)
    ensures
        r == grade_color(grade@),
{
    if same(grade, "MajorWarning") {
        0x99_00_99
    } else if same(grade, "Warning") {
        0xE0_00_00
    } else if same(grade, "Watch") {
        0xFF_C0_00
    } else {
        0x33_99_FF
    }
}

/// Whether a report is announced, and why.
#[derive(Debug)]
pub struct NotifyDecision {
    pub notify: bool,
    pub reason: String,
}

/// The prefecture and the intensity of each observed point.
pub open spec fn observed(points: Seq<Point>) -> Seq<(Seq<char>, i32)> {
    Seq::new(points.len(), |i: int| (points[i].pref@, points[i].scale))
}

/// The intensity a forecast is judged by: its upper bound, and its lower bound where
/// there is no upper one.
pub open spec fn forecast_scale(area: EewArea) -> i32 {
    if area.scale_to == SCALE_TO_UNBOUNDED {
        area.scale_from
    } else {
        area.scale_to
    }
}

/// The prefecture and the intensity of each forecast.
pub open spec fn forecast(areas: Seq<EewArea>) -> Seq<(Seq<char>, i32)> {
    Seq::new(areas.len(), |i: int| (areas[i].pref@, forecast_scale(areas[i])))
}

/// Whether a reading reaches what its region announces.
pub open spec fn reaches(reading: (Seq<char>, i32), scales: RegionScales, other: i32) -> bool {
    reading.1 >= threshold(reading.0, scales, other)
}

/// The largest intensity among the readings that reach what their region announces.
pub open spec fn best_reading(
    readings: Seq<(Seq<char>, i32)>,
    scales: RegionScales,
    other: i32,
) -> Option<i32>
    decreases readings.len(),
{
    if readings.len() == 0 {
        None
    } else {
        let best = best_reading(readings.drop_last(), scales, other);
        let scale = readings.last().1;
        if reaches(readings.last(), scales, other) {
            match best {
                Some(s) => Some(if s >= scale {
                    s
                } else {
                    scale
                }),
                None => Some(scale),
            }
        } else {
            best
        }
    }
}

/// The named prefectures with exactly the given intensity, in the order of the readings.
pub open spec fn prefs_with(readings: Seq<(Seq<char>, i32)>, scale: i32) -> Seq<Seq<char>>
    decreases readings.len(),
{
    if readings.len() == 0 {
        Seq::empty()
    } else {
        let prefs = prefs_with(readings.drop_last(), scale);
        if readings.last().1 == scale && readings.last().0.len() > 0 {
            prefs.push(readings.last().0)
        } else {
            prefs
        }
    }
}

/// A prefecture's name with its suffix.
pub open spec fn full_name(pref: Seq<char>) -> Seq<char> {
    let key = pref_key(pref);
    if key == "北海道"@ {
        key
    } else if key == "東京"@ {
        key + "都"@
    } else if key == "大阪"@ || key == "京都"@ {
        key + "府"@
    } else {
        key + "県"@
    }
}

/// The full names of prefectures.
pub open spec fn full_names(prefs: Seq<Seq<char>>) -> Seq<Seq<char>> {
    Seq::new(prefs.len(), |i: int| full_name(prefs[i]))
}

/// Up to four names with ・ between them, and a note if there are more; 各地 for none.
pub open spec fn place_text(prefs: Seq<Seq<char>>) -> Seq<char> {
    if prefs.len() == 0 {
        "各地"@
    } else if prefs.len() > 4 {
        joined(prefs.take(4), "・"@) + "など"@
    } else {
        joined(prefs, "・"@)
    }
}

/// The announcement rule for observed intensities: a point reaches what its region
/// announces, or the largest intensity reaches `other`.
pub open spec fn quake_notified(
    max_scale: i32,
    readings: Seq<(Seq<char>, i32)>,
    scales: RegionScales,
    other: i32,
) -> bool {
    best_reading(readings, scales, other) is Some || max_scale >= other
}

/// Why an earthquake report is announced.
pub open spec fn quake_reason(
    max_scale: i32,
    readings: Seq<(Seq<char>, i32)>,
    scales: RegionScales,
    other: i32,
) -> Seq<char> {
    match best_reading(readings, scales, other) {
        Some(scale) => place_text(distinct(prefs_with(readings, scale))) + "で最大震度"@
            + scale_text(scale) + "を観測"@,
        None => if max_scale >= other {
            "最大震度"@ + scale_text(max_scale) + "を観測"@
        } else {
            Seq::empty()
        },
    }
}

/// Decides whether an earthquake report is announced.
///
/// A point counts if it reaches the scale set for its region (`other_min_scale` where
/// none is set). Without such a point the largest intensity decides.
pub fn decide(
    eq: &Earthquake,
    points: &[Point],
    region_min_scales: &RegionScales,
    other_min_scale: i32,
) -> (r: NotifyDecision)
    ensures
        r.notify == quake_notified(
            eq.max_scale,
            observed(points@),
            *region_min_scales,
            other_min_scale,
        ),
        r.reason@ == quake_reason(
            eq.max_scale,
            observed(points@),
            *region_min_scales,
            other_min_scale,
        ),
{
    let ghost readings = observed(points@);
    let mut best: Option<i32> = None;
    for i in 0..points.len()
        invariant
            readings == observed(points@),
            best == best_reading(
                readings.take(i as int),
                *region_min_scales,
                other_min_scale,
            ),
    {
        let p = &points[i];
        let region = region_of(p.pref.as_str());
        let least: i32 = region_threshold(region, region_min_scales, other_min_scale);
        assert(readings.take(i + 1).drop_last() =~= readings.take(i as int));
        assert(readings.take(i + 1).last() == (p.pref@, p.scale));
        if p.scale >= least {
            best = Some(
                match best {
                    Some(s) => if s >= p.scale {
                        s
                    } else {
                        p.scale
                    },
                    None => p.scale,
                },
            );
        }
    }
    assert(readings.take(points@.len() as int) =~= readings);
    match best {
        Some(scale) => {
            let prefs = prefs_at_scale(points, scale);
            let place = format_place(&prefs);
            NotifyDecision {
                notify: true,
                reason: place.concat("で最大震度").concat(scale_label(scale)).concat("を観測"),
            }
        },
        None => if eq.max_scale >= other_min_scale {
            NotifyDecision {
                notify: true,
                reason: "最大震度".to_owned().concat(scale_label(eq.max_scale)).concat("を観測"),
            }
        } else {
            NotifyDecision { notify: false, reason: String::new() }
        },
    }
}

/// The prefectures that observed exactly the given intensity, each once, in order.
pub fn prefs_at_scale(points: &[Point], scale: i32) -> (r: Vec<String>)
    ensures
        texts(r@) == distinct(prefs_with(observed(points@), scale)),
{
    let ghost readings = observed(points@);
    let mut out: Vec<String> = Vec::new();
    assert(texts(out@) =~= Seq::<Seq<char>>::empty());
    for i in 0..points.len()
        invariant
            readings == observed(points@),
            texts(out@) == distinct(prefs_with(readings.take(i as int), scale)),
    {
        let p = &points[i];
        assert(readings.take(i + 1).drop_last() =~= readings.take(i as int));
        assert(readings.take(i + 1).last() == (p.pref@, p.scale));
        if p.scale == scale && !p.pref.as_str().is_empty() {
            proof {
                lemma_distinct_push(prefs_with(readings.take(i as int), scale), p.pref@);
            }
            if !holds(&out, p.pref.as_str()) {
                let ghost before = texts(out@);
                out.push(p.pref.clone());
                assert(texts(out@) =~= before.push(p.pref@));
            }
        }
    }
    assert(readings.take(points@.len() as int) =~= readings);
    out
}

/// The prefectures, by full name, with exactly the given forecast, each once, in order.
pub fn eew_prefs_at_scale(areas: &[EewArea], scale: i32) -> (r: Vec<String>)
    ensures
        texts(r@) == distinct(full_names(prefs_with(forecast(areas@), scale))),
{
    let ghost readings = forecast(areas@);
    let mut out: Vec<String> = Vec::new();
    assert(texts(out@) =~= Seq::<Seq<char>>::empty());
    assert(full_names(Seq::<Seq<char>>::empty()) =~= Seq::<Seq<char>>::empty());
    assert(readings.take(0) =~= Seq::<(Seq<char>, i32)>::empty());
    for i in 0..areas.len()
        invariant
            readings == forecast(areas@),
            texts(out@) == distinct(full_names(prefs_with(readings.take(i as int), scale))),
    {
        let a = &areas[i];
        assert(readings.take(i + 1).drop_last() =~= readings.take(i as int));
        assert(readings.take(i + 1).last() == (a.pref@, forecast_scale(*a)));
        if eew_area_scale(a) == scale && !a.pref.as_str().is_empty() {
            let shown = display_pref(a.pref.as_str());
            proof {
                let prefs = prefs_with(readings.take(i as int), scale);
                assert(full_names(prefs.push(a.pref@)) =~= full_names(prefs).push(shown@));
                lemma_distinct_push(full_names(prefs), shown@);
            }
            if !holds(&out, shown.as_str()) {
                let ghost before = texts(out@);
                let ghost name = shown@;
                out.push(shown);
                assert(texts(out@) =~= before.push(name));
            }
        }
    }
    assert(readings.take(areas@.len() as int) =~= readings);
    out
}

/// Gives a prefecture's name its suffix.
pub fn display_pref(pref: &str) -> (r: String)
    ensures
        r@ == full_name(pref@),
{
    let key = normalize_pref(pref);
    if same(key, "北海道") {
        key.to_owned()
    } else if same(key, "東京") {
        key.to_owned().concat("都")
    } else if same(key, "大阪") || same(key, "京都") {
        key.to_owned().concat("府")
    } else {
        key.to_owned().concat("県")
    }
}

/// Writes a list of prefectures: four at most, then a note that there are more.
pub fn format_place(prefs: &[String]) -> (r: String)
    ensures
        r@ == place_text(texts(prefs@)),
{
    let n: usize = prefs.len();
    if n == 0 {
        return "各地".to_owned();
    }
    if n > 4 {
        let shown = &prefs[0..4];
        assert(texts(shown@) =~= texts(prefs@).take(4));
        join(shown, "・").concat("など")
    } else {
        join(prefs, "・")
    }
}

/// Why an early warning is announced.
pub open spec fn eew_reason(
    areas: Seq<EewArea>,
    scales: RegionScales,
    other: i32,
) -> Seq<char> {
    match best_reading(forecast(areas), scales, other) {
        Some(scale) => forecast_summary(areas, scale),
        None => Seq::empty(),
    }
}

/// Where the given forecast holds, and how it reads.
pub open spec fn forecast_summary(areas: Seq<EewArea>, scale: i32) -> Seq<char> {
    place_text(distinct(full_names(prefs_with(forecast(areas), scale)))) + "で予想最大震度"@
        + forecast_text(scale, unbounded_at(areas, scale))
}

/// Decides whether an early warning is announced: an area's forecast reaches the scale
/// set for its region (`other_min_scale` where none is set).
pub fn decide_eew(
    areas: &[EewArea],
    region_min_scales: &RegionScales,
    other_min_scale: i32,
) -> (r: NotifyDecision)
    ensures
        r.notify == best_reading(forecast(areas@), *region_min_scales, other_min_scale) is Some,
        r.reason@ == eew_reason(areas@, *region_min_scales, other_min_scale),
{
    let ghost readings = forecast(areas@);
    let mut best: Option<i32> = None;
    for i in 0..areas.len()
        invariant
            readings == forecast(areas@),
            best == best_reading(
                readings.take(i as int),
                *region_min_scales,
                other_min_scale,
            ),
    {
        let a = &areas[i];
        let region = region_of(a.pref.as_str());
        let least: i32 = region_threshold(region, region_min_scales, other_min_scale);
        let scale: i32 = eew_area_scale(a);
        assert(readings.take(i + 1).drop_last() =~= readings.take(i as int));
        assert(readings.take(i + 1).last() == (a.pref@, scale));
        if scale >= least {
            best = Some(
                match best {
                    Some(s) => if s >= scale {
                        s
                    } else {
                        scale
                    },
                    None => scale,
                },
            );
        }
    }
    assert(readings.take(areas@.len() as int) =~= readings);
    match best {
        Some(scale) => NotifyDecision { notify: true, reason: summary_at(areas, scale) },
        None => NotifyDecision { notify: false, reason: String::new() },
    }
}

/// Writes where the given forecast holds.
fn summary_at(areas: &[EewArea], scale: i32) -> (r: String)
    ensures
        r@ == forecast_summary(areas@, scale),
{
    let prefs = eew_prefs_at_scale(areas, scale);
    let place = format_place(&prefs);
    let label = eew_scale_label(scale, is_unbounded_at(areas, scale));
    place.concat("で予想最大震度").concat(label.as_str())
}

/// Sums up a forecast, whatever is announced: where its largest intensity is expected.
pub fn eew_summary(areas: &[EewArea]) -> (r: String)
    ensures
        r@ == forecast_summary(areas@, forecast_max(areas@)),
{
    let max: i32 = eew_max_scale(areas);
    summary_at(areas, max)
}

/// The upper bound of a forecast that has none.
pub const SCALE_TO_UNBOUNDED: i32 = 99;

/// The intensity a forecast is judged by. The value for "no upper bound" is no intensity
/// and never counts as one.
pub fn eew_area_scale(area: &EewArea) -> (r: i32)
    ensures
        r == forecast_scale(*area),
{
    if area.scale_to == SCALE_TO_UNBOUNDED {
        area.scale_from
    } else {
        area.scale_to
    }
}

/// The largest forecast, -1 if there is none.
pub open spec fn forecast_max(areas: Seq<EewArea>) -> i32
    decreases areas.len(),
{
    if areas.len() == 0 {
        -1i32
    } else if areas.len() == 1 {
        forecast_scale(areas[0])
    } else {
        let before = forecast_max(areas.drop_last());
        let last = forecast_scale(areas.last());
        if before >= last {
            before
        } else {
            last
        }
    }
}

/// The largest forecast of a warning.
pub fn eew_max_scale(areas: &[EewArea]) -> (r: i32)
    ensures
        r == forecast_max(areas@),
{
    let n: usize = areas.len();
    if n == 0 {
        return -1;
    }
    let mut max: i32 = eew_area_scale(&areas[0]);
    assert(areas@.take(1)[0] == areas@[0]);
    for i in 1..n
        invariant
            n == areas@.len(),
            n >= 1,
            max == forecast_max(areas@.take(i as int)),
    {
        let scale: i32 = eew_area_scale(&areas[i]);
        assert(areas@.take(i + 1).drop_last() =~= areas@.take(i as int));
        if scale > max {
            max = scale;
        }
    }
    assert(areas@.take(n as int) =~= areas@);
    max
}

/// Writes the largest forecast of a warning.
pub fn eew_max_scale_label(areas: &[EewArea]) -> (r: String)
    ensures
        r@ == forecast_text(forecast_max(areas@), unbounded_at(areas@, forecast_max(areas@))),
{
    let max: i32 = eew_max_scale(areas);
    eew_scale_label(max, is_unbounded_at(areas, max))
}

/// Some area with this forecast has no upper bound.
pub open spec fn unbounded_at(areas: Seq<EewArea>, scale: i32) -> bool {
    exists|i: int|
        0 <= i < areas.len() && forecast_scale(#[trigger] areas[i]) == scale && areas[i].scale_to
            == SCALE_TO_UNBOUNDED
}

/// Whether some area with this forecast has no upper bound.
pub fn is_unbounded_at(areas: &[EewArea], scale: i32) -> (r: bool)
    ensures
        r == unbounded_at(areas@, scale),
{
    for i in 0..areas.len()
        invariant
            forall|j: int|
                0 <= j < i ==> !(forecast_scale(#[trigger] areas@[j]) == scale && areas@[j].scale_to
                    == SCALE_TO_UNBOUNDED),
    {
        if eew_area_scale(&areas[i]) == scale && areas[i].scale_to == SCALE_TO_UNBOUNDED {
            return true;
        }
    }
    false
}

/// How a forecast reads; without an upper bound it is marked as a lower one.
pub open spec fn forecast_text(scale: i32, unbounded: bool) -> Seq<char> {
    if unbounded {
        scale_text(scale) + "程度以上"@
    } else {
        scale_text(scale)
    }
}

/// Writes a forecast.
pub fn eew_scale_label(scale: i32, unbounded: bool) -> (r: String)
    ensures
        r@ == forecast_text(scale, unbounded),
{
    if unbounded {
        scale_label(scale).to_owned().concat("程度以上")
    } else {
        scale_label(scale).to_owned()
    }
}

/// A report is announced exactly if some reading reaches what its region announces, and the
/// intensity it is announced with is the largest of those.
pub proof fn lemma_best_reading(
    readings: Seq<(Seq<char>, i32)>,
    scales: RegionScales,
    other: i32,
)
    ensures
        match best_reading(readings, scales, other) {
            Some(best) => {
                &&& exists|i: int|
                    0 <= i < readings.len() && reaches(#[trigger] readings[i], scales, other)
                        && readings[i].1 == best
                &&& forall|i: int|
                    0 <= i < readings.len() && reaches(#[trigger] readings[i], scales, other)
                        ==> readings[i].1 <= best
            },
            None => forall|i: int|
                0 <= i < readings.len() ==> !reaches(#[trigger] readings[i], scales, other),
        },
    decreases readings.len(),
{
    if readings.len() > 0 {
        let rest = readings.drop_last();
        lemma_best_reading(rest, scales, other);
        let n = rest.len() as int;
        assert(readings[n] == readings.last());
        assert forall|i: int| 0 <= i < n implies readings[i] == #[trigger] rest[i] by {}
        match best_reading(rest, scales, other) {
            Some(best) => {
                let i = choose|i: int|
                    0 <= i < rest.len() && reaches(#[trigger] rest[i], scales, other) && rest[i].1
                        == best;
                assert(reaches(readings[i], scales, other) && readings[i].1 == best);
            },
            None => {},
        }
        assert forall|i: int|
            0 <= i < readings.len() && reaches(#[trigger] readings[i], scales, other) implies (
        best_reading(readings, scales, other) is Some && readings[i].1 <= best_reading(
            readings,
            scales,
            other,
        )->0) by {
            if i < n {
                assert(reaches(rest[i], scales, other));
            }
        }
    }
}

/// What is announced stays announced if less is asked for.
pub proof fn lemma_lower_thresholds_announce_more(
    max_scale: i32,
    readings: Seq<(Seq<char>, i32)>,
    high: RegionScales,
    high_other: i32,
    low: RegionScales,
    low_other: i32,
)
    requires
        low_other <= high_other,
        forall|pref: Seq<char>|
            #[trigger] threshold(pref, low, low_other) <= threshold(pref, high, high_other),
        quake_notified(max_scale, readings, high, high_other),
    ensures
        quake_notified(max_scale, readings, low, low_other),
{
    lemma_best_reading(readings, high, high_other);
    lemma_best_reading(readings, low, low_other);
    if best_reading(readings, high, high_other) is Some {
        let i = choose|i: int|
            0 <= i < readings.len() && reaches(#[trigger] readings[i], high, high_other);
        assert(threshold(readings[i].0, low, low_other) <= threshold(
            readings[i].0,
            high,
            high_other,
        ));
        assert(reaches(readings[i], low, low_other));
    }
}

/// There is a reason exactly if there is an announcement.
pub proof fn lemma_reason_given_iff_announced(
    max_scale: i32,
    readings: Seq<(Seq<char>, i32)>,
    areas: Seq<EewArea>,
    scales: RegionScales,
    other: i32,
)
    ensures
        quake_reason(max_scale, readings, scales, other).len() > 0 <==> quake_notified(
            max_scale,
            readings,
            scales,
            other,
        ),
        eew_reason(areas, scales, other).len() > 0 <==> best_reading(
            forecast(areas),
            scales,
            other,
        ) is Some,
{
    reveal_strlit("を観測");
    reveal_strlit("で予想最大震度");
}

/// Each intensity with a name, and the unknown one, has a colour of its own, but for the two
/// that stand for 5弱.
pub proof fn lemma_colors_tell_apart(a: i32, b: i32)
    requires
        known_scale(a) || a == -1,
        known_scale(b) || b == -1,
        palette(a) == palette(b),
    ensures
        a == b || (a == 45 && b == 46) || (a == 46 && b == 45),
{
}

/// Colours that differ as red, green and blue differ in one number.
pub proof fn lemma_packed_injective(a: (u8, u8, u8), b: (u8, u8, u8))
    requires
        packed(a) == packed(b),
    ensures
        a == b,
{
}

/// A prefecture goes by one key, lies in one region and has one full name, whether its name
/// comes with its suffix or without.
pub proof fn lemma_names_with_and_without_suffix(pref: Seq<char>)
    ensures
        pref_key(full_name(pref)) == pref_key(pref),
        region_name(pref_key(full_name(pref))) == region_name(pref_key(pref)),
        full_name(full_name(pref)) == full_name(pref),
{
    reveal_strlit("北海道");
    reveal_strlit("東京");
    reveal_strlit("大阪");
    reveal_strlit("京都");
    reveal_strlit("都");
    reveal_strlit("府");
    reveal_strlit("県");
    let key = pref_key(pref);
    let full = full_name(pref);
    if full != key {
        assert(full.drop_last() =~= key);
        assert(full.last() == '都' || full.last() == '府' || full.last() == '県');
        if full == "京都"@ {
            assert("京都"@[0] == '京');
            assert(key =~= seq!['京']);
            assert(key != "東京"@);
            assert(full.last() == '都');
            assert(false);
        }
    } else {
        assert("北海道"@.last() == '道');
    }
}

/// The largest forecast is that of some area, and no area has a larger one.
pub proof fn lemma_forecast_max(areas: Seq<EewArea>)
    requires
        areas.len() > 0,
    ensures
        exists|i: int|
            0 <= i < areas.len() && forecast_scale(#[trigger] areas[i]) == forecast_max(areas),
        forall|i: int|
            0 <= i < areas.len() ==> forecast_scale(#[trigger] areas[i]) <= forecast_max(areas),
    decreases areas.len(),
{
    if areas.len() > 1 {
        let rest = areas.drop_last();
        lemma_forecast_max(rest);
        let k = choose|k: int|
            0 <= k < rest.len() && forecast_scale(#[trigger] rest[k]) == forecast_max(rest);
        assert(areas[k] == rest[k]);
        assert(areas[areas.len() - 1] == areas.last());
        assert forall|i: int| 0 <= i < areas.len() implies forecast_scale(#[trigger] areas[i])
            <= forecast_max(areas) by {
            if i < rest.len() {
                assert(areas[i] == rest[i]);
            }
        }
    } else {
        assert(forecast_scale(areas[0]) == forecast_max(areas));
    }
}

} // verus!
