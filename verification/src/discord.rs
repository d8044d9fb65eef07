//! What is posted to a Discord webhook.

use serde_json::Value;
use vstd::prelude::*;
use vstd::string::*;

use crate::config::{Place, WatchedPoint};
use crate::intensity::{
    eew_area_scale, eew_max_scale, eew_max_scale_label, eew_scale_label, embed_color, forecast_max,
    forecast_scale, forecast_text, grade_color, grade_rank, grade_text, has_tsunami,
    is_known_scale, is_unbounded_at, known_scale, normalize_pref, packed, palette, pref_key,
    prefs_with, scale_label, scale_text, tsunami_expected, tsunami_grade_color,
    tsunami_grade_label, tsunami_grade_rank, tsunami_label, tsunami_text, unbounded_at,
    SCALE_TO_UNBOUNDED,
};
use crate::json::{
    as_list_mut, empty_object, item_mut, json_view, list_value, member_mut, members, number_value,
    put, text_value, truth_value, views, JsonView,
};
use crate::model::{Eew, EewArea, JmaQuake, Point, Tsunami, TsunamiArea};
use crate::reading::Measure;
use crate::text::{
    chars_of, decimal, decimal_text, distinct, holds, join, joined, lemma_decimal_width,
    lemma_distinct, lemma_distinct_push, lemma_utf16_add, same, texts, utf16_len, utf16_units,
};

verus! {

/// The file name of an attached map.
pub const MAP_FILE_NAME: &'static str = "quake.webp";

/// A watched place is matched by its whole name within its prefecture: nothing is inferred
/// from places nearby.
pub open spec fn watches(p: Place, pref: Seq<char>, name: Seq<char>) -> bool {
    pref_key(p.0) == pref_key(pref) && p.1 == name
}

/// Whether a watched place is the one named.
fn matches_watched(point: &WatchedPoint, pref: &str, name: &str) -> (r: bool)
    ensures
        r == watches(point.place(), pref@, name@),
{
    same(normalize_pref(point.pref.as_str()), normalize_pref(pref)) && same(
        point.name.as_str(),
        name,
    )
}

/// The characters that mean something in Markdown.
pub open spec fn is_markup(c: char) -> bool {
    c == '\\' || c == '`' || c == '*' || c == '_' || c == '~' || c == '|' || c == '>' || c == '['
        || c == ']' || c == '(' || c == ')' || c == '#'
}

/// One character as it is written so that it stands for itself.
pub open spec fn escaped_char(c: char) -> Seq<char> {
    if is_markup(c) {
        seq!['\\', c]
    } else {
        seq![c]
    }
}

/// A text with a backslash before each character that means something in Markdown.
pub open spec fn escaped(s: Seq<char>) -> Seq<char>
    decreases s.len(),
{
    if s.len() == 0 {
        s
    } else {
        escaped(s.drop_last()) + escaped_char(s.last())
    }
}

/// Writes a text so that Markdown shows it as it is.
pub fn escape_markdown(value: &str) -> (r: String)
    ensures
        r@ == escaped(value@),
{
    let chars = chars_of(value);
    let mut out = String::new();
    assert(value@.take(0) =~= Seq::<char>::empty());
    for i in 0..chars.len()
        invariant
            chars@ == value@,
            out@ == escaped(value@.take(i as int)),
    {
        let c = chars[i];
        assert(value@.take(i + 1).drop_last() =~= value@.take(i as int));
        let ghost before = out@;
        if c == '\\' || c == '`' || c == '*' || c == '_' || c == '~' || c == '|' || c == '>' || c
            == '[' || c == ']' || c == '(' || c == ')' || c == '#' {
            out.push('\\');
        }
        out.push(c);
        assert(out@ =~= before + escaped_char(c));
    }
    assert(value@.take(value@.len() as int) =~= value@);
    out
}

/// Escaping loses nothing: texts that differ are still told apart.
pub proof fn lemma_escaped_injective(a: Seq<char>, b: Seq<char>)
    requires
        escaped(a) == escaped(b),
    ensures
        a == b,
    decreases a.len(),
{
    lemma_escaped_last(a);
    lemma_escaped_last(b);
    if a.len() == 0 || b.len() == 0 {
        assert(a =~= b);
    } else {
        let x = a.drop_last();
        let y = b.drop_last();
        let w = escaped_char(a.last());
        let n = escaped(a).len() - w.len();
        assert(escaped(x) =~= escaped(a).take(n));
        assert(escaped(y) =~= escaped(b).take(n));
        lemma_escaped_injective(x, y);
        assert(a =~= x.push(a.last()));
        assert(b =~= y.push(b.last()));
    }
}

proof fn lemma_escaped_last(s: Seq<char>)
    ensures
        s.len() > 0 ==> escaped(s).len() > 0 && escaped(s).last() == s.last(),
        s.len() == 0 ==> escaped(s).len() == 0,
{
}

/// How a watched place and its intensity read.
pub open spec fn watched_text(p: Place, intensity: Seq<char>) -> Seq<char> {
    let place = if p.2.len() == 0 {
        escaped(p.1) + "（"@ + escaped(p.0) + "）"@
    } else {
        escaped(p.2) + "（"@ + escaped(p.0) + "・"@ + escaped(p.1) + "）"@
    };
    "**"@ + place + "：震度"@ + intensity + "**"@
}

/// Writes a watched place and its intensity.
pub fn watched_line(point: &WatchedPoint, intensity: &str) -> (r: String)
    ensures
        r@ == watched_text(point.place(), intensity@),
{
    let name = escape_markdown(point.name.as_str());
    let pref = escape_markdown(point.pref.as_str());
    let place = if point.label.as_str().is_empty() {
        name.concat("（").concat(pref.as_str()).concat("）")
    } else {
        escape_markdown(point.label.as_str()).concat("（").concat(pref.as_str()).concat(
            "・",
        ).concat(name.as_str()).concat("）")
    };
    "**".to_owned().concat(place.as_str()).concat("：震度").concat(intensity).concat("**")
}

/// Lines one below the other.
pub open spec fn stacked(lines: Seq<Seq<char>>) -> Seq<char>
    decreases lines.len(),
{
    if lines.len() == 0 {
        Seq::empty()
    } else {
        let above = stacked(lines.drop_last());
        if above.len() == 0 {
            above + lines.last()
        } else {
            above + "\n"@ + lines.last()
        }
    }
}

/// How many lines fit, of which the first `n` are known to.
pub open spec fn fitting(lines: Seq<Seq<char>>, n: nat) -> nat
    decreases lines.len() - n,
{
    if n < lines.len() && utf16_units(stacked(lines.take(n as int))) + utf16_units(lines[n as int])
        + 1 <= 950 {
        fitting(lines, n + 1)
    } else {
        n
    }
}

/// The lines that fit, and how many do not.
pub open spec fn watched_value(lines: Seq<Seq<char>>) -> Seq<char> {
    let n = fitting(lines, 0);
    if n < lines.len() {
        stacked(lines.take(n as int)) + "\nほか"@ + decimal_text((lines.len() - n) as nat)
            + "地点（表示上限）"@
    } else {
        stacked(lines)
    }
}

/// A field of an embed.
pub open spec fn field_view(name: Seq<char>, value: Seq<char>, inline: bool) -> JsonView {
    JsonView::Object(
        Map::<Seq<char>, JsonView>::empty().insert("name"@, JsonView::Text(name)).insert(
            "value"@,
            JsonView::Text(value),
        ).insert("inline"@, JsonView::Bool(inline)),
    )
}

/// Builds a field of an embed.
fn field(name: &str, value: &str, inline: bool) -> (r: Value)
    ensures
        json_view(r) == field_view(name@, value@, inline),
{
    let mut v = empty_object();
    put(&mut v, "name", text_value(name));
    put(&mut v, "value", text_value(value));
    put(&mut v, "inline", truth_value(inline));
    v
}

/// A payload whose first embed can take fields: it is an object, or a null that stands
/// for an empty one.
pub open spec fn takes_fields(payload: JsonView) -> bool {
    match payload.member_list("embeds"@) {
        Some(embeds) => embeds.len() > 0 && (embeds[0] is Object || embeds[0] is Null),
        None => false,
    }
}

/// The fields of an embed with one more before them. What is no list of fields stays as it
/// is.
pub open spec fn fields_with_first(embed: JsonView, first: JsonView) -> JsonView {
    match embed.member("fields"@) {
        Some(JsonView::List(fields)) => JsonView::List(seq![first] + fields),
        Some(other) => other,
        None => JsonView::Null,
    }
}

/// A payload with one more field before those of its first embed.
pub open spec fn with_first_field(payload: JsonView, first: JsonView) -> JsonView {
    let embeds = payload.member_list("embeds"@)->0;
    let embed = JsonView::Object(
        members(embeds[0]).insert("fields"@, fields_with_first(embeds[0], first)),
    );
    JsonView::Object(
        members(payload).insert("embeds"@, JsonView::List(embeds.update(0, embed))),
    )
}

/// A payload with the watched places before its fields, if there are any.
pub open spec fn with_watched(
    payload: JsonView,
    title: Seq<char>,
    lines: Seq<Seq<char>>,
) -> JsonView {
    if lines.len() == 0 {
        payload
    } else {
        with_first_field(payload, field_view(title, watched_value(lines), false))
    }
}

/// Puts the lines into a field before the others. However many there are, the field keeps
/// within what Discord accepts, and says how many are left out.
pub fn prepend_watched_field(payload: &mut Value, title: &str, lines: &[String])
    requires
        lines@.len() > 0 ==> takes_fields(json_view(*old(payload))),
    ensures
        json_view(*final(payload)) == with_watched(
            json_view(*old(payload)),
            title@,
            texts(lines@),
        ),
{
    let n: usize = lines.len();
    if n == 0 {
        return;
    }
    let ghost before = json_view(*payload);
    let value = fold_lines(lines);
    let first = field(title, value.as_str(), false);
    let embeds = member_mut(payload, "embeds");
    let embed = item_mut(embeds, 0);
    let ghost old_embed = json_view(*embed);
    let fields = member_mut(embed, "fields");
    match as_list_mut(fields) {
        Some(list) => {
            let ghost old_list = list@;
            let ghost head = json_view(first);
            list.insert(0, first);
            assert(views(list@) =~= seq![head] + views(old_list));
        },
        None => {},
    }
}

/// The lines that fit into a field, and how many do not.
fn fold_lines(lines: &[String]) -> (r: String)
    ensures
        r@ == watched_value(texts(lines@)),
{
    let n: usize = lines.len();
    let ghost all = texts(lines@);
    let mut value = String::new();
    assert(all.take(0) =~= Seq::<Seq<char>>::empty());
    for i in 0..n
        invariant
            n == lines@.len(),
            all == texts(lines@),
            value@ == stacked(all.take(i as int)),
            fitting(all, 0) == fitting(all, i as nat),
    {
        let line = lines[i].as_str();
        assert(line@ == all[i as int]);
        proof {
            assert(all.take(i + 1).drop_last() =~= all.take(i as int));
            assert(all.take(i + 1).last() == all[i as int]);
        }
        if utf16_len(value.as_str()) + utf16_len(line) + 1 > 950 {
            return value.concat("\nほか").concat(decimal((n - i) as u64).as_str()).concat(
                "地点（表示上限）",
            );
        }
        if !value.as_str().is_empty() {
            value.append("\n");
        }
        value.append(line);
    }
    assert(all.take(n as int) =~= all);
    value
}

/// The field of the watched places never exceeds the 1024 UTF-16 units that Discord
/// accepts, however many lines there are and however long they are.
pub proof fn lemma_watched_value_fits(lines: Seq<Seq<char>>)
    requires
        lines.len() <= u64::MAX,
    ensures
        utf16_units(watched_value(lines)) <= 1024,
{
    lemma_fitting(lines, 0);
    let n = fitting(lines, 0);
    let shown = stacked(lines.take(n as int));
    if n < lines.len() {
        let left = (lines.len() - n) as nat;
        lemma_decimal_width(left);
        let a = shown + "\nほか"@;
        let b = a + decimal_text(left);
        lemma_utf16_add(shown, "\nほか"@);
        lemma_utf16_add(a, decimal_text(left));
        lemma_utf16_add(b, "地点（表示上限）"@);
        reveal_strlit("\nほか");
        reveal_strlit("地点（表示上限）");
        lemma_units_per_char("\nほか"@);
        lemma_units_per_char("地点（表示上限）"@);
        lemma_units_per_char(decimal_text(left));
    } else {
        assert(lines.take(n as int) =~= lines);
    }
}

/// A text has at most two UTF-16 units for each character.
proof fn lemma_units_per_char(s: Seq<char>)
    ensures
        utf16_units(s) <= 2 * s.len(),
    decreases s.len(),
{
    if s.len() > 0 {
        lemma_units_per_char(s.drop_last());
    }
}

/// The lines that fit stay within their share of the field.
proof fn lemma_fitting(lines: Seq<Seq<char>>, n: nat)
    requires
        n <= lines.len(),
        utf16_units(stacked(lines.take(n as int))) <= 950,
    ensures
        fitting(lines, n) <= lines.len(),
        utf16_units(stacked(lines.take(fitting(lines, n) as int))) <= 950,
    decreases lines.len() - n,
{
    if n < lines.len() {
        let above = stacked(lines.take(n as int));
        let line = lines[n as int];
        if utf16_units(above) + utf16_units(line) + 1 <= 950 {
            assert(lines.take(n + 1int).drop_last() =~= lines.take(n as int));
            lemma_utf16_add(above, line);
            lemma_utf16_add(above, "\n"@);
            lemma_utf16_add(above + "\n"@, line);
            reveal_strlit("\n");
            reveal_with_fuel(utf16_units, 2);
            assert(utf16_units("\n"@) == 1);
            lemma_fitting(lines, n + 1);
        }
    }
}

/// The largest known intensity that was observed at a watched place.
pub open spec fn watched_scale(points: Seq<Point>, p: Place) -> Option<i32>
    decreases points.len(),
{
    if points.len() == 0 {
        None
    } else {
        let best = watched_scale(points.drop_last(), p);
        let last = points.last();
        if watches(p, last.pref@, last.addr@) && known_scale(last.scale) && (best is None
            || last.scale >= best->0) {
            Some(last.scale)
        } else {
            best
        }
    }
}

/// One line for each watched place at which an intensity was observed.
pub open spec fn watched_quake_lines(
    points: Seq<Point>,
    watched: Seq<WatchedPoint>,
) -> Seq<Seq<char>>
    decreases watched.len(),
{
    if watched.len() == 0 {
        Seq::empty()
    } else {
        let lines = watched_quake_lines(points, watched.drop_last());
        let p = watched.last().place();
        match watched_scale(points, p) {
            Some(scale) => lines.push(watched_text(p, scale_text(scale))),
            None => lines,
        }
    }
}

/// The title of the field with observed intensities.
pub const WATCHED_QUAKE_TITLE: &'static str = "📍 登録地点の震度";

/// The title of the field with forecast intensities.
pub const WATCHED_EEW_TITLE: &'static str = "📍 登録地点の予想震度";

/// Puts the intensities observed at watched places before the other fields.
pub fn highlight_watched_quake(payload: &mut Value, quake: &JmaQuake, watched: &[WatchedPoint])
    requires
        watched_quake_lines(quake.points@, watched@).len() > 0 ==> takes_fields(
            json_view(*old(payload)),
        ),
    ensures
        json_view(*final(payload)) == with_watched(
            json_view(*old(payload)),
            WATCHED_QUAKE_TITLE@,
            watched_quake_lines(quake.points@, watched@),
        ),
{
    let mut lines: Vec<String> = Vec::new();
    assert(texts(lines@) =~= Seq::<Seq<char>>::empty());
    assert(watched@.take(0) =~= Seq::<WatchedPoint>::empty());
    for i in 0..watched.len()
        invariant
            texts(lines@) == watched_quake_lines(quake.points@, watched@.take(i as int)),
    {
        let point = &watched[i];
        assert(watched@.take(i + 1).drop_last() =~= watched@.take(i as int));
        match observed_at(quake.points.as_slice(), point) {
            Some(scale) => {
                let line = watched_line(point, scale_label(scale));
                let ghost before = texts(lines@);
                let ghost text = line@;
                lines.push(line);
                assert(texts(lines@) =~= before.push(text));
            },
            None => {},
        }
    }
    assert(watched@.take(watched@.len() as int) =~= watched@);
    prepend_watched_field(payload, WATCHED_QUAKE_TITLE, &lines);
}

/// The largest known intensity that was observed at a watched place.
fn observed_at(points: &[Point], point: &WatchedPoint) -> (r: Option<i32>)
    ensures
        r == watched_scale(points@, point.place()),
{
    let mut best: Option<i32> = None;
    for i in 0..points.len()
        invariant
            best == watched_scale(points@.take(i as int), point.place()),
    {
        let p = &points[i];
        assert(points@.take(i + 1).drop_last() =~= points@.take(i as int));
        if matches_watched(point, p.pref.as_str(), p.addr.as_str()) && is_known_scale(p.scale) {
            let better = match best {
                Some(s) => p.scale >= s,
                None => true,
            };
            if better {
                best = Some(p.scale);
            }
        }
    }
    assert(points@.take(points@.len() as int) =~= points@);
    best
}

/// Whether one forecast counts at least as much as another: one without an upper bound
/// counts more than one with, and then the intensity decides.
pub open spec fn outweighs(a: EewArea, b: EewArea) -> bool {
    let a_open = a.scale_to == SCALE_TO_UNBOUNDED;
    let b_open = b.scale_to == SCALE_TO_UNBOUNDED;
    if a_open == b_open {
        forecast_scale(a) >= forecast_scale(b)
    } else {
        a_open
    }
}

/// The forecast for a watched place that counts most; of equal ones the last.
pub open spec fn watched_area(areas: Seq<EewArea>, p: Place) -> Option<int>
    decreases areas.len(),
{
    if areas.len() == 0 {
        None
    } else {
        let best = watched_area(areas.drop_last(), p);
        let last = areas.last();
        if watches(p, last.pref@, last.name@) && known_scale(forecast_scale(last)) && (best is None
            || outweighs(last, areas[best->0])) {
            Some(areas.len() - 1)
        } else {
            best
        }
    }
}

/// How a forecast for a watched place reads: as a range where its bounds differ.
pub open spec fn range_text(a: EewArea) -> Seq<char> {
    let upper = forecast_text(forecast_scale(a), a.scale_to == SCALE_TO_UNBOUNDED);
    if a.scale_to != SCALE_TO_UNBOUNDED && a.scale_from < a.scale_to && known_scale(a.scale_from) {
        scale_text(a.scale_from) + "〜"@ + upper
    } else {
        upper
    }
}

/// One line for each watched place with a forecast.
pub open spec fn watched_eew_lines(
    areas: Seq<EewArea>,
    watched: Seq<WatchedPoint>,
) -> Seq<Seq<char>>
    decreases watched.len(),
{
    if watched.len() == 0 {
        Seq::empty()
    } else {
        let lines = watched_eew_lines(areas, watched.drop_last());
        let p = watched.last().place();
        match watched_area(areas, p) {
            Some(i) => lines.push(watched_text(p, range_text(areas[i]))),
            None => lines,
        }
    }
}

/// The lines for watched places: none if the warning is withdrawn.
pub open spec fn watched_lines_of(eew: Eew, watched: Seq<WatchedPoint>) -> Seq<Seq<char>> {
    if eew.cancelled {
        Seq::empty()
    } else {
        watched_eew_lines(eew.areas@, watched)
    }
}

/// Puts the intensities forecast for watched places before the other fields. A withdrawn
/// warning shows none.
pub fn highlight_watched_eew(payload: &mut Value, eew: &Eew, watched: &[WatchedPoint])
    requires
        watched_lines_of(*eew, watched@).len() > 0 ==> takes_fields(json_view(*old(payload))),
    ensures
        json_view(*final(payload)) == with_watched(
            json_view(*old(payload)),
            WATCHED_EEW_TITLE@,
            watched_lines_of(*eew, watched@),
        ),
{
    if eew.cancelled {
        return;
    }
    let mut lines: Vec<String> = Vec::new();
    assert(texts(lines@) =~= Seq::<Seq<char>>::empty());
    assert(watched@.take(0) =~= Seq::<WatchedPoint>::empty());
    for i in 0..watched.len()
        invariant
            texts(lines@) == watched_eew_lines(eew.areas@, watched@.take(i as int)),
    {
        let point = &watched[i];
        assert(watched@.take(i + 1).drop_last() =~= watched@.take(i as int));
        match forecast_for(eew.areas.as_slice(), point) {
            Some(k) => {
                let line = watched_line(point, forecast_range(&eew.areas[k]).as_str());
                let ghost before = texts(lines@);
                let ghost text = line@;
                lines.push(line);
                assert(texts(lines@) =~= before.push(text));
            },
            None => {},
        }
    }
    assert(watched@.take(watched@.len() as int) =~= watched@);
    prepend_watched_field(payload, WATCHED_EEW_TITLE, &lines);
}

/// The forecast for a watched place that counts most.
fn forecast_for(areas: &[EewArea], point: &WatchedPoint) -> (r: Option<usize>)
    ensures
        match r {
            Some(k) => k < areas@.len() && watched_area(areas@, point.place()) == Some(k as int),
            None => watched_area(areas@, point.place()) is None,
        },
{
    let mut best: Option<usize> = None;
    for i in 0..areas.len()
        invariant
            match best {
                Some(k) => k < i && watched_area(areas@.take(i as int), point.place()) == Some(
                    k as int,
                ),
                None => watched_area(areas@.take(i as int), point.place()) is None,
            },
    {
        let a = &areas[i];
        proof {
            assert(areas@.take(i + 1).drop_last() =~= areas@.take(i as int));
        }
        if matches_watched(point, a.pref.as_str(), a.name.as_str()) && is_known_scale(
            eew_area_scale(a),
        ) {
            let better = match best {
                Some(k) => {
                    let b = &areas[k];
                    assert(areas@.take(i + 1)[k as int] == *b);
                    let a_open = a.scale_to == SCALE_TO_UNBOUNDED;
                    let b_open = b.scale_to == SCALE_TO_UNBOUNDED;
                    if a_open == b_open {
                        eew_area_scale(a) >= eew_area_scale(b)
                    } else {
                        a_open
                    }
                },
                None => true,
            };
            if better {
                best = Some(i);
            }
        }
    }
    assert(areas@.take(areas@.len() as int) =~= areas@);
    best
}

/// Writes a forecast, as a range where its bounds differ.
fn forecast_range(a: &EewArea) -> (r: String)
    ensures
        r@ == range_text(*a),
{
    let upper = eew_scale_label(eew_area_scale(a), a.scale_to == SCALE_TO_UNBOUNDED);
    if a.scale_to != SCALE_TO_UNBOUNDED && a.scale_from < a.scale_to && is_known_scale(
        a.scale_from,
    ) {
        scale_label(a.scale_from).to_owned().concat("〜").concat(upper.as_str())
    } else {
        upper
    }
}

/// How many names a line lists before it only counts them.
pub const MAX_NAMES_PER_SCALE: usize = 12;

/// The largest intensity below a limit that some named item has.
pub open spec fn next_scale(items: Seq<(Seq<char>, i32)>, below: int) -> Option<i32>
    decreases items.len(),
{
    if items.len() == 0 {
        None
    } else {
        let best = next_scale(items.drop_last(), below);
        let (name, scale) = items.last();
        if name.len() > 0 && 0 <= scale < below && (best is None || scale > best->0) {
            Some(scale)
        } else {
            best
        }
    }
}

/// The next intensity is one below the limit.
pub proof fn lemma_next_scale(items: Seq<(Seq<char>, i32)>, below: int)
    ensures
        next_scale(items, below) matches Some(s) ==> 0 <= s < below,
    decreases items.len(),
{
    if items.len() > 0 {
        lemma_next_scale(items.drop_last(), below);
    }
}

/// Names one after another, at most twelve of them, and how many more there are.
pub open spec fn names_text(names: Seq<Seq<char>>, unit: Seq<char>) -> Seq<char> {
    if names.len() > MAX_NAMES_PER_SCALE {
        joined(names.take(MAX_NAMES_PER_SCALE as int), "、"@) + " ほか"@ + decimal_text(
            (names.len() - MAX_NAMES_PER_SCALE) as nat,
        ) + unit
    } else {
        joined(names, "、"@)
    }
}

/// The line of one intensity: the intensity, and where it is, each name once in order.
pub open spec fn scale_line(
    items: Seq<(Seq<char>, i32)>,
    scale: i32,
    unit: Seq<char>,
    areas: Seq<EewArea>,
) -> Seq<char> {
    forecast_text(scale, unbounded_at(areas, scale)) + ": "@ + names_text(
        distinct(prefs_with(items, scale)),
        unit,
    )
}

/// The lines of the intensities below a limit, the largest first.
pub open spec fn scale_lines(
    items: Seq<(Seq<char>, i32)>,
    below: int,
    unit: Seq<char>,
    areas: Seq<EewArea>,
) -> Seq<Seq<char>>
    decreases below,
{
    match next_scale(items, below) {
        Some(scale) => {
            proof {
                lemma_next_scale(items, below);
            }
            seq![scale_line(items, scale, unit, areas)] + scale_lines(
                items,
                scale as int,
                unit,
                areas,
            )
        },
        None => Seq::empty(),
    }
}

/// No intensity is as large as this.
pub const ABOVE_ALL_SCALES: i64 = 0x8000_0000;

/// The lines of all intensities, one below the other; `None` if there are none.
pub open spec fn groups_text(
    items: Seq<(Seq<char>, i32)>,
    unit: Seq<char>,
    areas: Seq<EewArea>,
) -> Option<Seq<char>> {
    let lines = scale_lines(items, ABOVE_ALL_SCALES as int, unit, areas);
    if lines.len() == 0 {
        None
    } else {
        Some(joined(lines, "\n"@))
    }
}

/// The names and intensities of a list.
pub open spec fn named(items: Seq<(&str, i32)>) -> Seq<(Seq<char>, i32)> {
    Seq::new(items.len(), |i: int| (items[i].0@, items[i].1))
}

/// The largest intensity below a limit that some named item has.
fn largest_below(items: &[(&str, i32)], below: i64) -> (r: Option<i32>)
    ensures
        r == next_scale(named(items@), below as int),
{
    let ghost all = named(items@);
    let mut best: Option<i32> = None;
    for i in 0..items.len()
        invariant
            all == named(items@),
            best == next_scale(all.take(i as int), below as int),
    {
        let (name, scale) = items[i];
        assert(all.take(i + 1).drop_last() =~= all.take(i as int));
        assert(all.take(i + 1).last() == (name@, scale));
        if !name.is_empty() && scale >= 0 && (scale as i64) < below {
            let better = match best {
                Some(s) => scale > s,
                None => true,
            };
            if better {
                best = Some(scale);
            }
        }
    }
    assert(all.take(items@.len() as int) =~= all);
    best
}

/// The names that have exactly the given intensity, each once, in order.
fn names_at(items: &[(&str, i32)], scale: i32) -> (r: Vec<String>)
    ensures
        texts(r@) == distinct(prefs_with(named(items@), scale)),
{
    let ghost all = named(items@);
    let mut out: Vec<String> = Vec::new();
    assert(texts(out@) =~= Seq::<Seq<char>>::empty());
    for i in 0..items.len()
        invariant
            all == named(items@),
            texts(out@) == distinct(prefs_with(all.take(i as int), scale)),
    {
        let (name, at) = items[i];
        assert(all.take(i + 1).drop_last() =~= all.take(i as int));
        assert(all.take(i + 1).last() == (name@, at));
        if at == scale && !name.is_empty() {
            proof {
                lemma_distinct_push(prefs_with(all.take(i as int), scale), name@);
            }
            if !holds(&out, name) {
                let ghost before = texts(out@);
                out.push(name.to_owned());
                assert(texts(out@) =~= before.push(name@));
            }
        }
    }
    assert(all.take(items@.len() as int) =~= all);
    out
}

/// Groups names by intensity: one line for each, the largest first, with every name once
/// and in order. `None` if nothing named has an intensity.
///
/// Where one of `areas` has no upper bound at an intensity, its line says so.
pub fn fmt_intensity_groups(items: &[(&str, i32)], unit: &str, areas: &[EewArea]) -> (r: Option<
    String,
>)
    ensures
        match r {
            Some(s) => groups_text(named(items@), unit@, areas@) == Some(s@),
            None => groups_text(named(items@), unit@, areas@) is None,
        },
{
    let ghost all = named(items@);
    let mut lines: Vec<String> = Vec::new();
    let mut below: i64 = ABOVE_ALL_SCALES;
    let ghost whole = scale_lines(all, ABOVE_ALL_SCALES as int, unit@, areas@);
    assert(texts(lines@) + whole =~= whole);
    loop
        invariant_except_break
            all == named(items@),
            whole == texts(lines@) + scale_lines(all, below as int, unit@, areas@),
        ensures
            whole == texts(lines@),
        decreases below,
    {
        let next = largest_below(items, below);
        proof {
            lemma_next_scale(all, below as int);
        }
        match next {
            Some(scale) => {
                let names = names_at(items, scale);
                let listed = list_names(&names, unit);
                let line = eew_scale_label(scale, is_unbounded_at(areas, scale)).concat(
                    ": ",
                ).concat(listed.as_str());
                let ghost before = texts(lines@);
                let ghost text = line@;
                lines.push(line);
                assert(texts(lines@) =~= before.push(text));
                assert(before + (seq![text] + scale_lines(all, scale as int, unit@, areas@))
                    =~= texts(lines@) + scale_lines(all, scale as int, unit@, areas@));
                below = scale as i64;
            },
            None => {
                assert(whole =~= texts(lines@));
                break;
            },
        }
    }
    if lines.len() == 0 {
        None
    } else {
        Some(join(&lines, "\n"))
    }
}

/// Names one after another, at most twelve of them, and how many more there are.
fn list_names(names: &[String], unit: &str) -> (r: String)
    ensures
        r@ == names_text(texts(names@), unit@),
{
    let n: usize = names.len();
    if n > MAX_NAMES_PER_SCALE {
        let shown = &names[0..MAX_NAMES_PER_SCALE];
        assert(texts(shown@) =~= texts(names@).take(MAX_NAMES_PER_SCALE as int));
        join(shown, "、").concat(" ほか").concat(
            decimal((n - MAX_NAMES_PER_SCALE) as u64).as_str(),
        ).concat(unit)
    } else {
        join(names, "、")
    }
}

/// The name and the intensity of each point; a point without a name goes by its
/// prefecture.
pub open spec fn point_items(points: Seq<Point>) -> Seq<(Seq<char>, i32)> {
    Seq::new(
        points.len(),
        |i: int|
            (
                if points[i].addr@.len() == 0 {
                    points[i].pref@
                } else {
                    points[i].addr@
                },
                points[i].scale,
            ),
    )
}

/// Groups the observed points by intensity. `None` if none was observed.
pub fn fmt_points(points: &[Point]) -> (r: Option<String>)
    ensures
        match r {
            Some(s) => groups_text(point_items(points@), "地点"@, Seq::empty()) == Some(s@),
            None => groups_text(point_items(points@), "地点"@, Seq::empty()) is None,
        },
{
    let mut items: Vec<(&str, i32)> = Vec::new();
    for i in 0..points.len()
        invariant
            items@.len() == i,
            forall|j: int| 0 <= j < i ==> named(items@)[j] == #[trigger] point_items(points@)[j],
    {
        let p = &points[i];
        let ghost before = items@;
        let name = if p.addr.as_str().is_empty() {
            p.pref.as_str()
        } else {
            p.addr.as_str()
        };
        items.push((name, p.scale));
        assert forall|j: int| 0 <= j < i + 1 implies named(items@)[j] == #[trigger] point_items(
            points@,
        )[j] by {
            if j < i {
                assert(named(items@)[j] == named(before)[j]);
            }
        }
    }
    assert(named(items@) =~= point_items(points@));
    let none: Vec<EewArea> = Vec::new();
    assert(none@ =~= Seq::<EewArea>::empty());
    fmt_intensity_groups(&items, "地点", &none)
}

/// How a magnitude reads.
pub open spec fn magnitude_text(m: Measure) -> Seq<char> {
    if !m.value.nan() && m.value.rank() < 0 {
        "不明"@
    } else {
        "M"@ + m.shown@
    }
}

/// Writes a magnitude; it is unknown if negative.
pub fn fmt_magnitude(magnitude: &Measure) -> (r: String)
    ensures
        r@ == magnitude_text(*magnitude),
{
    if magnitude.value.is_negative() {
        "不明".to_owned()
    } else {
        "M".to_owned().concat(magnitude.shown.as_str())
    }
}

/// How a depth reads.
pub open spec fn depth_text(d: Measure) -> Seq<char> {
    if !d.value.nan() && d.value.rank() < 0 {
        "不明"@
    } else if d.value.rank() == 0 {
        "ごく浅い"@
    } else {
        d.shown@ + "km"@
    }
}

/// Writes a depth; it is unknown if negative and very shallow if zero.
pub fn fmt_depth(depth: &Measure) -> (r: String)
    ensures
        r@ == depth_text(*depth),
{
    if depth.value.is_negative() {
        "不明".to_owned()
    } else if depth.value.is_zero() {
        "ごく浅い".to_owned()
    } else {
        depth.shown.clone().concat("km")
    }
}

/// A text, or 不明 in place of an empty one.
pub open spec fn or_unknown(s: Seq<char>) -> Seq<char> {
    if s.len() == 0 {
        "不明"@
    } else {
        s
    }
}

fn shown_or_unknown(s: &str) -> (r: String)
    ensures
        r@ == or_unknown(s@),
{
    if s.is_empty() {
        "不明".to_owned()
    } else {
        s.to_owned()
    }
}

/// An embed. `fields` is absent from the embeds that lift an earlier notice.
pub open spec fn embed_view(
    title: Seq<char>,
    description: Seq<char>,
    color: int,
    fields: Option<Seq<JsonView>>,
    footer: Seq<char>,
    image: bool,
) -> JsonView {
    let base = Map::<Seq<char>, JsonView>::empty().insert("title"@, JsonView::Text(title)).insert(
        "description"@,
        JsonView::Text(description),
    ).insert("color"@, JsonView::Integer(color));
    let listed = match fields {
        Some(list) => base.insert("fields"@, JsonView::List(list)),
        None => base,
    };
    let closed = listed.insert(
        "footer"@,
        JsonView::Object(
            Map::<Seq<char>, JsonView>::empty().insert("text"@, JsonView::Text(footer)),
        ),
    );
    JsonView::Object(
        if image {
            closed.insert(
                "image"@,
                JsonView::Object(
                    Map::<Seq<char>, JsonView>::empty().insert(
                        "url"@,
                        JsonView::Text("attachment://"@ + MAP_FILE_NAME@),
                    ),
                ),
            )
        } else {
            closed
        },
    )
}

/// A payload with one embed.
pub open spec fn payload_view(embed: JsonView) -> JsonView {
    JsonView::Object(
        Map::<Seq<char>, JsonView>::empty().insert("embeds"@, JsonView::List(seq![embed])),
    )
}

/// Builds a payload with one embed.
fn payload_of(
    title: &str,
    description: &str,
    color: u32,
    fields: Option<Vec<Value>>,
    footer: &str,
    image: bool,
) -> (r: Value)
    ensures
        json_view(r) == payload_view(
            embed_view(
                title@,
                description@,
                color as int,
                match fields {
                    Some(list) => Some(views(list@)),
                    None => None,
                },
                footer@,
                image,
            ),
        ),
{
    let mut embed = empty_object();
    put(&mut embed, "title", text_value(title));
    put(&mut embed, "description", text_value(description));
    put(&mut embed, "color", number_value(color));
    if let Some(list) = fields {
        put(&mut embed, "fields", list_value(list));
    }
    let mut foot = empty_object();
    put(&mut foot, "text", text_value(footer));
    put(&mut embed, "footer", foot);
    if image {
        let mut picture = empty_object();
        put(
            &mut picture,
            "url",
            text_value("attachment://".to_owned().concat(MAP_FILE_NAME).as_str()),
        );
        put(&mut embed, "image", picture);
    }
    let mut payload = empty_object();
    let ghost inner = json_view(embed);
    let mut embeds: Vec<Value> = Vec::new();
    embeds.push(embed);
    assert(views(embeds@) =~= seq![inner]);
    put(&mut payload, "embeds", list_value(embeds));
    payload
}

/// Where the map comes from.
pub const MAP_CREDIT: &'static str =
    " ・ 地図: 地理院タイル https://maps.gsi.go.jp/development/ichiran.html";

/// Where the coordinates of the stations come from.
pub const STATION_CREDIT: &'static str =
    " ・ 観測点座標: 気象庁 https://ds.data.jma.go.jp/eqev/data/intens-st/ を本botで加工";

/// A footer with the sources of a map, if there is one.
pub open spec fn credited(footer: Seq<char>, with_image: bool) -> Seq<char> {
    if with_image {
        footer + MAP_CREDIT@ + STATION_CREDIT@
    } else {
        footer
    }
}

fn credit(footer: &str, with_image: bool) -> (r: String)
    ensures
        r@ == credited(footer@, with_image),
{
    if with_image {
        footer.to_owned().concat(MAP_CREDIT).concat(STATION_CREDIT)
    } else {
        footer.to_owned()
    }
}

/// The title of an earthquake report. A prompt report is called one, and a tsunami is
/// marked.
pub open spec fn quake_title(quake: JmaQuake, is_test: bool) -> Seq<char> {
    let mark = if tsunami_expected(quake.earthquake.domestic_tsunami@) {
        "🌊"@
    } else {
        ""@
    };
    let kind = if quake.issue.prompt() {
        "震度速報"@
    } else {
        "地震情報"@
    };
    let largest = scale_text(quake.earthquake.max_scale);
    if is_test {
        "🧪【テスト通知】"@ + mark + kind + "（最大震度 "@ + largest + "）"@
    } else {
        "🚨"@ + mark + " "@ + kind + "（最大震度 "@ + largest + "）"@
    }
}

/// The description of an earthquake report. A prompt report says that more will follow.
pub open spec fn quake_description(quake: JmaQuake, reason: Seq<char>) -> Seq<char> {
    if quake.issue.prompt() {
        reason + "（速報のため続報で震源・規模などの詳細が入ります）"@
    } else {
        reason
    }
}

/// The footer of an earthquake report.
pub open spec fn quake_footer(with_image: bool, is_test: bool) -> Seq<char> {
    let sources = credited("出典: 気象庁（P2P地震情報経由）"@, with_image);
    if is_test {
        sources + " ・ これはテスト送信です"@
    } else {
        sources
    }
}

/// The fields of an earthquake report.
pub open spec fn quake_fields(quake: JmaQuake) -> Seq<JsonView> {
    let eq = quake.earthquake;
    let head = seq![
        field_view("震源地"@, or_unknown(eq.hypocenter.name@), true),
        field_view("マグニチュード"@, magnitude_text(eq.hypocenter.magnitude), true),
        field_view("深さ"@, depth_text(eq.hypocenter.depth), true),
        field_view("発生時刻"@, or_unknown(eq.time@), false),
    ];
    let listed = match groups_text(point_items(quake.points@), "地点"@, Seq::empty()) {
        Some(text) => head.push(field_view("各地の震度"@, text, false)),
        None => head,
    };
    listed.push(field_view("津波"@, tsunami_text(eq.domestic_tsunami@), false))
}

/// What is posted of an earthquake report.
pub open spec fn quake_payload(
    quake: JmaQuake,
    reason: Seq<char>,
    with_image: bool,
    is_test: bool,
) -> JsonView {
    payload_view(
        embed_view(
            quake_title(quake, is_test),
            quake_description(quake, reason),
            packed(palette(quake.earthquake.max_scale)),
            Some(quake_fields(quake)),
            quake_footer(with_image, is_test),
            with_image,
        ),
    )
}

/// Builds the payload of an earthquake report.
///
/// With `with_image` it refers to an attached map; with `is_test` it says that it is a test.
pub fn build_payload(quake: &JmaQuake, reason: &str, with_image: bool, is_test: bool) -> (r: Value)
    ensures
        json_view(r) == quake_payload(*quake, reason@, with_image, is_test),
{
    let eq = &quake.earthquake;
    let hypo = &eq.hypocenter;
    let is_prompt = quake.issue.is_prompt();
    let tsunami_mark = if has_tsunami(eq.domestic_tsunami.as_str()) {
        "🌊"
    } else {
        ""
    };
    let kind = if is_prompt {
        "震度速報"
    } else {
        "地震情報"
    };
    let largest = scale_label(eq.max_scale);
    let title = if is_test {
        "🧪【テスト通知】".to_owned().concat(tsunami_mark).concat(kind).concat(
            "（最大震度 ",
        ).concat(largest).concat("）")
    } else {
        "🚨".to_owned().concat(tsunami_mark).concat(" ").concat(kind).concat(
            "（最大震度 ",
        ).concat(largest).concat("）")
    };
    let description = if is_prompt {
        reason.to_owned().concat("（速報のため続報で震源・規模などの詳細が入ります）")
    } else {
        reason.to_owned()
    };
    let sources = credit("出典: 気象庁（P2P地震情報経由）", with_image);
    let footer = if is_test {
        sources.concat(" ・ これはテスト送信です")
    } else {
        sources
    };
    let mut fields: Vec<Value> = Vec::new();
    fields.push(field("震源地", shown_or_unknown(hypo.name.as_str()).as_str(), true));
    fields.push(field("マグニチュード", fmt_magnitude(&hypo.magnitude).as_str(), true));
    fields.push(field("深さ", fmt_depth(&hypo.depth).as_str(), true));
    fields.push(field("発生時刻", shown_or_unknown(eq.time.as_str()).as_str(), false));
    if let Some(points_text) = fmt_points(quake.points.as_slice()) {
        fields.push(field("各地の震度", points_text.as_str(), false));
    }
    fields.push(field("津波", tsunami_label(eq.domestic_tsunami.as_str()), false));
    assert(views(fields@) =~= quake_fields(*quake));
    payload_of(
        title.as_str(),
        description.as_str(),
        embed_color(eq.max_scale),
        Some(fields),
        footer.as_str(),
        with_image,
    )
}

/// The beginning of a title, which marks a test.
pub open spec fn test_mark(is_test: bool) -> Seq<char> {
    if is_test {
        "🧪【テスト通知】"@
    } else {
        ""@
    }
}

fn test_prefix(is_test: bool) -> (r: &'static str)
    ensures
        r@ == test_mark(is_test),
{
    if is_test {
        "🧪【テスト通知】"
    } else {
        ""
    }
}

/// The areas of a warning in which shaking is felt, with their forecasts.
pub open spec fn area_items(areas: Seq<EewArea>) -> Seq<(Seq<char>, i32)>
    decreases areas.len(),
{
    if areas.len() == 0 {
        Seq::empty()
    } else {
        let items = area_items(areas.drop_last());
        if forecast_scale(areas.last()) > 0 {
            items.push((areas.last().name@, forecast_scale(areas.last())))
        } else {
            items
        }
    }
}

/// The areas of a warning by their forecasts, or a dash if no shaking is felt anywhere.
pub open spec fn areas_text(areas: Seq<EewArea>) -> Seq<char> {
    match groups_text(area_items(areas), "地域"@, areas) {
        Some(text) => text,
        None => "—"@,
    }
}

fn fmt_areas(areas: &[EewArea]) -> (r: String)
    ensures
        r@ == areas_text(areas@),
{
    let mut items: Vec<(&str, i32)> = Vec::new();
    assert(named(items@) =~= Seq::<(Seq<char>, i32)>::empty());
    for i in 0..areas.len()
        invariant
            named(items@) == area_items(areas@.take(i as int)),
    {
        let a = &areas[i];
        assert(areas@.take(i + 1).drop_last() =~= areas@.take(i as int));
        let scale: i32 = eew_area_scale(a);
        if scale > 0 {
            let ghost before = named(items@);
            items.push((a.name.as_str(), scale));
            assert(named(items@) =~= before.push((a.name@, scale)));
        }
    }
    assert(areas@.take(areas@.len() as int) =~= areas@);
    match fmt_intensity_groups(&items, "地域", areas) {
        Some(text) => text,
        None => "—".to_owned(),
    }
}

/// The grey of an embed that lifts an earlier notice.
pub const LIFTED_COLOR: u32 = 0x80_80_80;

/// What is posted of an early warning.
pub open spec fn eew_payload(
    eew: Eew,
    reason: Seq<char>,
    with_image: bool,
    is_test: bool,
) -> JsonView {
    if eew.cancelled {
        payload_view(
            embed_view(
                test_mark(is_test) + "⚠️ 緊急地震速報 取消"@,
                "先ほどの緊急地震速報は取り消されました。"@,
                LIFTED_COLOR as int,
                None,
                "出典: 気象庁 緊急地震速報（P2P地震情報経由）"@,
                false,
            ),
        )
    } else {
        let largest = forecast_max(eew.areas@);
        let hypo = eew.earthquake.hypocenter;
        payload_view(
            embed_view(
                test_mark(is_test) + "⚡ 緊急地震速報（予想最大震度 "@ + forecast_text(
                    largest,
                    unbounded_at(eew.areas@, largest),
                ) + "）"@,
                reason + "（速報・予想値のため続報で変わることがあります）"@,
                packed(palette(largest)),
                Some(
                    seq![
                        field_view("震源地"@, or_unknown(hypo.name@), true),
                        field_view("マグニチュード"@, magnitude_text(hypo.magnitude), true),
                        field_view("深さ"@, depth_text(hypo.depth), true),
                        field_view("発表時刻"@, or_unknown(eew.issue.time@), false),
                        field_view("強い揺れが予想される地域"@, areas_text(eew.areas@), false),
                    ],
                ),
                credited(
                    "出典: 気象庁 緊急地震速報（P2P地震情報経由・予想値）"@,
                    with_image,
                ),
                with_image,
            ),
        )
    }
}

/// Builds the payload of an early warning. One that is withdrawn says so and nothing more.
pub fn build_eew_payload(eew: &Eew, reason: &str, with_image: bool, is_test: bool) -> (r: Value)
    ensures
        json_view(r) == eew_payload(*eew, reason@, with_image, is_test),
{
    let prefix = test_prefix(is_test);
    if eew.cancelled {
        return payload_of(
            prefix.to_owned().concat("⚠️ 緊急地震速報 取消").as_str(),
            "先ほどの緊急地震速報は取り消されました。",
            LIFTED_COLOR,
            None,
            "出典: 気象庁 緊急地震速報（P2P地震情報経由）",
            false,
        );
    }
    let hypo = &eew.earthquake.hypocenter;
    let areas = eew.areas.as_slice();
    let max_scale: i32 = eew_max_scale(areas);
    let title = prefix.to_owned().concat("⚡ 緊急地震速報（予想最大震度 ").concat(
        eew_max_scale_label(areas).as_str(),
    ).concat("）");
    let description = reason.to_owned().concat(
        "（速報・予想値のため続報で変わることがあります）",
    );
    let footer = credit(
        "出典: 気象庁 緊急地震速報（P2P地震情報経由・予想値）",
        with_image,
    );
    let mut fields: Vec<Value> = Vec::new();
    fields.push(field("震源地", shown_or_unknown(hypo.name.as_str()).as_str(), true));
    fields.push(field("マグニチュード", fmt_magnitude(&hypo.magnitude).as_str(), true));
    fields.push(field("深さ", fmt_depth(&hypo.depth).as_str(), true));
    fields.push(field("発表時刻", shown_or_unknown(eew.issue.time.as_str()).as_str(), false));
    fields.push(field("強い揺れが予想される地域", fmt_areas(areas).as_str(), false));
    assert(views(fields@) =~= seq![
        field_view("震源地"@, or_unknown(hypo.name@), true),
        field_view("マグニチュード"@, magnitude_text(hypo.magnitude), true),
        field_view("深さ"@, depth_text(hypo.depth), true),
        field_view("発表時刻"@, or_unknown(eew.issue.time@), false),
        field_view("強い揺れが予想される地域"@, areas_text(eew.areas@), false),
    ]);
    payload_of(
        title.as_str(),
        description.as_str(),
        embed_color(max_scale),
        Some(fields),
        footer.as_str(),
        with_image,
    )
}

/// The gravest grade of a forecast; of equally grave ones the last, and none without
/// areas.
pub open spec fn gravest(areas: Seq<TsunamiArea>) -> Seq<char>
    decreases areas.len(),
{
    if areas.len() == 0 {
        Seq::empty()
    } else if areas.len() == 1 {
        areas[0].grade@
    } else {
        let before = gravest(areas.drop_last());
        if grade_rank(areas.last().grade@) >= grade_rank(before) {
            areas.last().grade@
        } else {
            before
        }
    }
}

fn gravest_grade(areas: &[TsunamiArea]) -> (r: &str)
    ensures
        r@ == gravest(areas@),
{
    let n: usize = areas.len();
    if n == 0 {
        proof {
            reveal_strlit("");
        }
        assert(""@ =~= gravest(areas@));
        return "";
    }
    let mut best = areas[0].grade.as_str();
    assert(areas@.take(1)[0] == areas@[0]);
    for i in 1..n
        invariant
            n == areas@.len(),
            best@ == gravest(areas@.take(i as int)),
    {
        let grade = areas[i].grade.as_str();
        assert(areas@.take(i + 1).drop_last() =~= areas@.take(i as int));
        if tsunami_grade_rank(grade) >= tsunami_grade_rank(best) {
            best = grade;
        }
    }
    assert(areas@.take(n as int) =~= areas@);
    best
}

/// The coasts with the given grade, in order.
pub open spec fn coasts(areas: Seq<TsunamiArea>, grade: Seq<char>) -> Seq<Seq<char>>
    decreases areas.len(),
{
    if areas.len() == 0 {
        Seq::empty()
    } else {
        let names = coasts(areas.drop_last(), grade);
        if areas.last().grade@ == grade {
            names.push(areas.last().name@)
        } else {
            names
        }
    }
}

fn coasts_with(areas: &[TsunamiArea], grade: &str) -> (r: Vec<String>)
    ensures
        texts(r@) == coasts(areas@, grade@),
{
    let mut out: Vec<String> = Vec::new();
    assert(texts(out@) =~= Seq::<Seq<char>>::empty());
    for i in 0..areas.len()
        invariant
            texts(out@) == coasts(areas@.take(i as int), grade@),
    {
        assert(areas@.take(i + 1).drop_last() =~= areas@.take(i as int));
        if same(areas[i].grade.as_str(), grade) {
            let ghost before = texts(out@);
            out.push(areas[i].name.clone());
            assert(texts(out@) =~= before.push(areas@[i as int].name@));
        }
    }
    assert(areas@.take(areas@.len() as int) =~= areas@);
    out
}

/// The fields of a forecast so far, and one for a grade if any coast has it.
pub open spec fn with_grade(
    fields: Seq<JsonView>,
    areas: Seq<TsunamiArea>,
    grade: Seq<char>,
) -> Seq<JsonView> {
    let names = coasts(areas, grade);
    if names.len() > 0 {
        fields.push(field_view(grade_text(grade), joined(names, "、"@), false))
    } else {
        fields
    }
}

fn push_grade(fields: &mut Vec<Value>, areas: &[TsunamiArea], grade: &str)
    ensures
        views(final(fields)@) == with_grade(views(old(fields)@), areas@, grade@),
{
    let names = coasts_with(areas, grade);
    if names.len() > 0 {
        let ghost before = views(fields@);
        let f = field(tsunami_grade_label(grade), join(&names, "、").as_str(), false);
        let ghost view = json_view(f);
        fields.push(f);
        assert(views(fields@) =~= before.push(view));
    }
}

/// The fields of a tsunami forecast: one for each grade, the gravest first.
pub open spec fn tsunami_fields(areas: Seq<TsunamiArea>) -> Seq<JsonView> {
    let first = with_grade(Seq::empty(), areas, "MajorWarning"@);
    let second = with_grade(first, areas, "Warning"@);
    with_grade(second, areas, "Watch"@)
}

/// Some coast may be reached at once.
pub open spec fn arrives_at_once(areas: Seq<TsunamiArea>) -> bool {
    exists|i: int| 0 <= i < areas.len() && (#[trigger] areas[i]).immediate
}

fn any_immediate(areas: &[TsunamiArea]) -> (r: bool)
    ensures
        r == arrives_at_once(areas@),
{
    for i in 0..areas.len()
        invariant
            forall|j: int| 0 <= j < i ==> !(#[trigger] areas@[j]).immediate,
    {
        if areas[i].immediate {
            assert(areas@[i as int].immediate);
            return true;
        }
    }
    false
}

/// What is posted of a tsunami forecast.
pub open spec fn tsunami_payload(tsunami: Tsunami, is_test: bool) -> JsonView {
    if tsunami.cancelled {
        payload_view(
            embed_view(
                test_mark(is_test) + "🌊 津波予報 解除"@,
                "津波予報（注意報・警報）はすべて解除されました。"@,
                LIFTED_COLOR as int,
                None,
                "出典: 気象庁 津波予報（P2P地震情報経由）"@,
                false,
            ),
        )
    } else {
        let grade = gravest(tsunami.areas@);
        let description = if arrives_at_once(tsunami.areas@) {
            "津波予報が発表されています。**直ちに津波来襲のおそれ**があります。沿岸から離れてください。"@
        } else {
            "津波予報が発表されています。沿岸では注意してください。"@
        };
        let source = "出典: 気象庁 津波予報（P2P地震情報経由）"@;
        let footer = if tsunami.issue.time@.len() > 0 {
            source + " ・ 発表 "@ + tsunami.issue.time@
        } else {
            source
        };
        payload_view(
            embed_view(
                test_mark(is_test) + "🌊 "@ + grade_text(grade),
                description,
                grade_color(grade) as int,
                Some(tsunami_fields(tsunami.areas@)),
                footer,
                false,
            ),
        )
    }
}

/// Builds the payload of a tsunami forecast. One that lifts all forecasts says so and
/// nothing more.
pub fn build_tsunami_payload(tsunami: &Tsunami, is_test: bool) -> (r: Value)
    ensures
        json_view(r) == tsunami_payload(*tsunami, is_test),
{
    let prefix = test_prefix(is_test);
    if tsunami.cancelled {
        return payload_of(
            prefix.to_owned().concat("🌊 津波予報 解除").as_str(),
            "津波予報（注意報・警報）はすべて解除されました。",
            LIFTED_COLOR,
            None,
            "出典: 気象庁 津波予報（P2P地震情報経由）",
            false,
        );
    }
    let areas = tsunami.areas.as_slice();
    let max_grade = gravest_grade(areas);
    let mut fields: Vec<Value> = Vec::new();
    assert(views(fields@) =~= Seq::<JsonView>::empty());
    push_grade(&mut fields, areas, "MajorWarning");
    push_grade(&mut fields, areas, "Warning");
    push_grade(&mut fields, areas, "Watch");
    let description = if any_immediate(areas) {
        "津波予報が発表されています。**直ちに津波来襲のおそれ**があります。沿岸から離れてください。"
    } else {
        "津波予報が発表されています。沿岸では注意してください。"
    };
    let mut footer = "出典: 気象庁 津波予報（P2P地震情報経由）".to_owned();
    if !tsunami.issue.time.as_str().is_empty() {
        footer = footer.concat(" ・ 発表 ").concat(tsunami.issue.time.as_str());
    }
    let title = prefix.to_owned().concat("🌊 ").concat(tsunami_grade_label(max_grade));
    payload_of(
        title.as_str(),
        description,
        tsunami_grade_color(max_grade),
        Some(fields),
        footer.as_str(),
        false,
    )
}

/// There are lines exactly if something named has an intensity.
pub proof fn lemma_groups_shown_iff_observed(
    items: Seq<(Seq<char>, i32)>,
    unit: Seq<char>,
    areas: Seq<EewArea>,
)
    ensures
        groups_text(items, unit, areas) is Some <==> exists|i: int|
            0 <= i < items.len() && (#[trigger] items[i]).0.len() > 0 && items[i].1 >= 0,
{
    lemma_next_scale_bounds(items, ABOVE_ALL_SCALES as int);
}

/// The next intensity is the largest below the limit.
pub(crate) proof fn lemma_next_scale_bounds(items: Seq<(Seq<char>, i32)>, below: int)
    ensures
        match next_scale(items, below) {
            Some(s) => {
                &&& exists|i: int|
                    0 <= i < items.len() && (#[trigger] items[i]).0.len() > 0 && items[i].1 == s
                &&& 0 <= s < below
                &&& forall|i: int|
                    0 <= i < items.len() && (#[trigger] items[i]).0.len() > 0 && 0 <= items[i].1
                        < below ==> items[i].1 <= s
            },
            None => forall|i: int|
                0 <= i < items.len() && (#[trigger] items[i]).0.len() > 0 ==> !(0 <= items[i].1
                    < below),
        },
    decreases items.len(),
{
    if items.len() > 0 {
        let rest = items.drop_last();
        lemma_next_scale_bounds(rest, below);
        assert(items[items.len() - 1] == items.last());
        assert forall|i: int| 0 <= i < rest.len() implies items[i] == #[trigger] rest[i] by {}
        match next_scale(rest, below) {
            Some(s) => {
                let i = choose|i: int|
                    0 <= i < rest.len() && (#[trigger] rest[i]).0.len() > 0 && rest[i].1 == s;
                assert(items[i] == rest[i]);
            },
            None => {},
        }
        assert forall|i: int|
            0 <= i < items.len() && (#[trigger] items[i]).0.len() > 0 && 0 <= items[i].1
                < below implies next_scale(items, below) is Some && items[i].1 <= next_scale(
            items,
            below,
        )->0 by {
            if i < rest.len() {
                assert(rest[i] == items[i]);
            }
        }
    }
}

/// The intensities below a limit that something named has, the largest first.
pub open spec fn shown_scales(items: Seq<(Seq<char>, i32)>, below: int) -> Seq<i32>
    decreases below,
{
    match next_scale(items, below) {
        Some(scale) => {
            proof {
                lemma_next_scale(items, below);
            }
            seq![scale] + shown_scales(items, scale as int)
        },
        None => Seq::empty(),
    }
}

/// There is one line for each intensity that is shown, and they go from the largest intensity
/// to the least.
pub proof fn lemma_lines_go_by_intensity(
    items: Seq<(Seq<char>, i32)>,
    below: int,
    unit: Seq<char>,
    areas: Seq<EewArea>,
)
    ensures
        scale_lines(items, below, unit, areas).len() == shown_scales(items, below).len(),
        forall|k: int|
            0 <= k < shown_scales(items, below).len() ==> #[trigger] scale_lines(
                items,
                below,
                unit,
                areas,
            )[k] == scale_line(items, shown_scales(items, below)[k], unit, areas),
        forall|j: int, k: int|
            0 <= j < k < shown_scales(items, below).len() ==> #[trigger] shown_scales(
                items,
                below,
            )[j] > #[trigger] shown_scales(items, below)[k],
        forall|k: int|
            0 <= k < shown_scales(items, below).len() ==> 0 <= #[trigger] shown_scales(
                items,
                below,
            )[k] < below,
    decreases below,
{
    lemma_next_scale(items, below);
    match next_scale(items, below) {
        Some(scale) => {
            lemma_lines_go_by_intensity(items, scale as int, unit, areas);
            let rest = shown_scales(items, scale as int);
            let all = shown_scales(items, below);
            assert forall|k: int| 1 <= k < all.len() implies all[k] == #[trigger] rest[k - 1] by {}
            assert forall|k: int| 0 <= k < all.len() implies 0 <= #[trigger] all[k] < below by {
                if k > 0 {
                    assert(all[k] == rest[k - 1]);
                }
            }
            assert forall|j: int, k: int| 0 <= j < k < all.len() implies #[trigger] all[j]
                > #[trigger] all[k] by {
                assert(all[k] == rest[k - 1]);
                if j > 0 {
                    assert(all[j] == rest[j - 1]);
                }
            }
            let lines = scale_lines(items, below, unit, areas);
            let below_lines = scale_lines(items, scale as int, unit, areas);
            assert forall|k: int| 0 <= k < all.len() implies #[trigger] lines[k] == scale_line(
                items,
                all[k],
                unit,
                areas,
            ) by {
                if k > 0 {
                    assert(lines[k] == below_lines[k - 1]);
                    assert(all[k] == rest[k - 1]);
                }
            }
        },
        None => {},
    }
}

/// Everything named that has an intensity is on the line of its intensity.
pub proof fn lemma_every_place_is_listed(
    items: Seq<(Seq<char>, i32)>,
    below: int,
    unit: Seq<char>,
    areas: Seq<EewArea>,
    i: int,
)
    requires
        0 <= i < items.len(),
        items[i].0.len() > 0,
        0 <= items[i].1 < below,
    ensures
        scale_lines(items, below, unit, areas).contains(
            scale_line(items, items[i].1, unit, areas),
        ),
        distinct(prefs_with(items, items[i].1)).contains(items[i].0),
    decreases below,
{
    lemma_next_scale_bounds(items, below);
    let s = next_scale(items, below)->0;
    let lines = scale_lines(items, below, unit, areas);
    let rest = scale_lines(items, s as int, unit, areas);
    if items[i].1 == s {
        assert(lines[0] == scale_line(items, s, unit, areas));
    } else {
        lemma_every_place_is_listed(items, s as int, unit, areas, i);
        let k = choose|k: int|
            0 <= k < rest.len() && rest[k] == scale_line(items, items[i].1, unit, areas);
        assert(lines[k + 1] == rest[k]);
    }
    lemma_prefs_with(items, i);
    lemma_distinct(prefs_with(items, items[i].1));
}

proof fn lemma_prefs_with(items: Seq<(Seq<char>, i32)>, i: int)
    requires
        0 <= i < items.len(),
        items[i].0.len() > 0,
    ensures
        prefs_with(items, items[i].1).contains(items[i].0),
    decreases items.len(),
{
    let rest = items.drop_last();
    let scale = items[i].1;
    let before = prefs_with(rest, scale);
    if i == rest.len() {
        assert(before.push(items[i].0)[before.len() as int] == items[i].0);
    } else {
        assert(rest[i] == items[i]);
        lemma_prefs_with(rest, i);
        let k = choose|k: int| 0 <= k < before.len() && before[k] == items[i].0;
        assert(prefs_with(items, scale)[k] == items[i].0);
    }
}

/// The first embed of a payload.
pub open spec fn first_embed(payload: JsonView) -> JsonView {
    payload.member_list("embeds"@)->0[0]
}

/// The watched places stand before the fields of a payload and leave everything else as it is.
pub proof fn lemma_watched_places_come_first(
    payload: JsonView,
    title: Seq<char>,
    lines: Seq<Seq<char>>,
    key: Seq<char>,
)
    requires
        takes_fields(payload),
        lines.len() > 0,
        key != "fields"@,
    ensures
        first_embed(payload).member_list("fields"@) matches Some(fields) ==> first_embed(
            with_watched(payload, title, lines),
        ).member_list("fields"@) == Some(
            seq![field_view(title, watched_value(lines), false)] + fields,
        ),
        first_embed(with_watched(payload, title, lines)).member(key) == first_embed(
            payload,
        ).member(key),
{
}

/// Every payload that is built here can show watched places.
pub proof fn lemma_payloads_take_fields(
    quake: JmaQuake,
    eew: Eew,
    reason: Seq<char>,
    with_image: bool,
    is_test: bool,
)
    ensures
        takes_fields(quake_payload(quake, reason, with_image, is_test)),
        takes_fields(eew_payload(eew, reason, with_image, is_test)),
{
}

} // verus!
