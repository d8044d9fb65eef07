//! What is promised of the posts: what each of their parts says, and of what.

use vstd::prelude::*;

use crate::config::WatchedPoint;
use crate::discord::{
    area_items, areas_text, coasts, eew_payload, embed_view, escaped, field_view, fitting,
    gravest, groups_text,
    lemma_lines_go_by_intensity, lemma_next_scale, lemma_next_scale_bounds, names_text, next_scale, payload_view,
    point_items, quake_payload, scale_line, scale_lines, shown_scales, stacked, tsunami_fields,
    tsunami_payload, watched_area, watched_eew_lines, watched_lines_of, watched_quake_lines,
    watched_scale, watched_value, with_watched, ABOVE_ALL_SCALES, MAP_CREDIT, STATION_CREDIT,
};
use crate::intensity::{
    forecast_max, forecast_scale, grade_rank, grade_text, lemma_forecast_max, palette, pref_key,
    prefs_with, scale_text, tsunami_text, unbounded_at,
};
use crate::json::JsonView;
use crate::laws::texts::{
    lemma_joined_texts_are_all_there, lemma_repetitions_are_left_out, once_each,
};
use crate::model::{Eew, EewArea, JmaQuake, Point, Tsunami, TsunamiArea};
use crate::reading::Measure;
use crate::text::{decimal_text, distinct, joined, occurs, utf16_units};

verus! {

/// The one embed of a post.
pub open spec fn embed_in(post: JsonView) -> JsonView {
    post.member_list("embeds"@)->0[0]
}

/// A post has one embed, and nothing else.
pub open spec fn has_one_embed(post: JsonView) -> bool {
    &&& post.member_list("embeds"@) matches Some(embeds) && embeds.len() == 1
    &&& forall|key: Seq<char>| key != "embeds"@ ==> #[trigger] post.member(key) is None
}

/// The fields of a post; none if it has no list of them.
pub open spec fn fields_in(post: JsonView) -> Seq<JsonView> {
    match embed_in(post).member_list("fields"@) {
        Some(fields) => fields,
        None => Seq::empty(),
    }
}

/// A field bears a name and a value.
pub open spec fn reads(field: JsonView, name: Seq<char>, value: Seq<char>) -> bool {
    field.member_text("name"@) == Some(name) && field.member_text("value"@) == Some(value)
}

/// One field of a post bears the name, no other does, and this is its value.
pub open spec fn says(post: JsonView, name: Seq<char>, value: Seq<char>) -> bool {
    exists|k: int|
        0 <= k < fields_in(post).len() && reads(#[trigger] fields_in(post)[k], name, value)
            && forall|j: int|
            0 <= j < fields_in(post).len() && j != k ==> (#[trigger] fields_in(post)[j]).member_text(
                "name"@,
            ) != Some(name)
}

/// No field of a post bears the name.
pub open spec fn says_nothing_of(post: JsonView, name: Seq<char>) -> bool {
    forall|j: int|
        0 <= j < fields_in(post).len() ==> (#[trigger] fields_in(post)[j]).member_text("name"@)
            != Some(name)
}

/// What a post says around its fields: the title, the text, the colour and the footer.
pub open spec fn framed(
    post: JsonView,
    title: Seq<char>,
    text: Seq<char>,
    color: int,
    footer: Seq<char>,
) -> bool {
    &&& embed_in(post).member_text("title"@) == Some(title)
    &&& embed_in(post).member_text("description"@) == Some(text)
    &&& embed_in(post).member("color"@) == Some(JsonView::Integer(color))
    &&& embed_in(post).member("footer"@) matches Some(f) && f.member_text("text"@) == Some(footer)
}

/// A post shows the attached map.
pub open spec fn shows_map(post: JsonView) -> bool {
    embed_in(post).member("image"@) matches Some(image) && image.member_text("url"@) == Some(
        "attachment://quake.webp"@,
    )
}

/// A number below zero, by its bits: the sign is set, and it is neither zero nor beyond the
/// infinity.
pub open spec fn below_zero(m: Measure) -> bool {
    0x8000_0000_0000_0000 < m.value.bits <= 0xfff0_0000_0000_0000
}

/// One of the two zeros.
pub open spec fn at_zero(m: Measure) -> bool {
    m.value.bits == 0 || m.value.bits == 0x8000_0000_0000_0000
}

/// A text, or that it is not known.
pub open spec fn known_or_not(s: Seq<char>) -> Seq<char> {
    if s.len() > 0 {
        s
    } else {
        "不明"@
    }
}

/// What is said of a magnitude.
pub open spec fn of_magnitude(m: Measure) -> Seq<char> {
    if below_zero(m) {
        "不明"@
    } else {
        "M"@ + m.shown@
    }
}

/// What is said of a depth.
pub open spec fn of_depth(d: Measure) -> Seq<char> {
    if below_zero(d) {
        "不明"@
    } else if at_zero(d) {
        "ごく浅い"@
    } else {
        d.shown@ + "km"@
    }
}

/// The intensity that an area is counted with: the upper end of its forecast, or the lower one
/// if it is open above.
pub open spec fn counted(a: EewArea) -> i32 {
    if a.scale_to == 99 {
        a.scale_from
    } else {
        a.scale_to
    }
}

/// The largest intensity of a forecast; -1 for one without areas.
pub open spec fn is_largest(areas: Seq<EewArea>, scale: i32) -> bool {
    if areas.len() == 0 {
        scale == -1
    } else {
        &&& exists|i: int| 0 <= i < areas.len() && counted(#[trigger] areas[i]) == scale
        &&& forall|i: int| 0 <= i < areas.len() ==> counted(#[trigger] areas[i]) <= scale
    }
}

/// Some area is forecast with at least this intensity, without an upper end.
pub open spec fn open_above(areas: Seq<EewArea>, scale: i32) -> bool {
    exists|i: int|
        0 <= i < areas.len() && (#[trigger] areas[i]).scale_to == 99 && areas[i].scale_from == scale
}

/// How an intensity is called; where the forecast is open above, it is called the least.
pub open spec fn called(areas: Seq<EewArea>, scale: i32) -> Seq<char> {
    if open_above(areas, scale) {
        scale_text(scale) + "程度以上"@
    } else {
        scale_text(scale)
    }
}

/// The colour of an intensity in one number.
pub open spec fn color_of(scale: i32) -> int {
    let (red, green, blue) = palette(scale);
    65536 * red + 256 * green + blue
}

pub(crate) proof fn lemma_called(areas: Seq<EewArea>, scale: i32)
    ensures
        unbounded_at(areas, scale) == open_above(areas, scale),
{
    if unbounded_at(areas, scale) {
        let i = choose|i: int|
            0 <= i < areas.len() && forecast_scale(#[trigger] areas[i]) == scale
                && areas[i].scale_to == 99;
        assert(areas[i].scale_from == scale);
    }
    if open_above(areas, scale) {
        let i = choose|i: int|
            0 <= i < areas.len() && (#[trigger] areas[i]).scale_to == 99 && areas[i].scale_from
                == scale;
        assert(forecast_scale(areas[i]) == scale);
    }
}

/// The names of a list that have an intensity, in order.
pub open spec fn named_with(items: Seq<(Seq<char>, i32)>, scale: i32) -> Seq<Seq<char>> {
    items.filter_map(
        |item: (Seq<char>, i32)|
            if item.1 == scale && item.0.len() > 0 {
                Some(item.0)
            } else {
                None
            },
    )
}

/// The first twelve names, and the number of the others.
pub open spec fn twelve_of(names: Seq<Seq<char>>, unit: Seq<char>) -> Seq<char> {
    if names.len() <= 12 {
        joined(names, "、"@)
    } else {
        joined(names.subrange(0, 12), "、"@) + (" ほか"@ + decimal_text((names.len() - 12) as nat)
            + unit)
    }
}

/// The lines by intensity: which intensities they are of, and which names stand on each.
pub open spec fn lines_by_intensity(
    items: Seq<(Seq<char>, i32)>,
    unit: Seq<char>,
    areas: Seq<EewArea>,
    scales: Seq<i32>,
    names: Seq<Seq<Seq<char>>>,
    text: Seq<char>,
) -> bool {
    &&& scales.len() > 0
    &&& names.len() == scales.len()
    &&& forall|j: int, k: int|
        0 <= j < k < scales.len() ==> #[trigger] scales[j] > #[trigger] scales[k]
    &&& forall|s: i32|
        #[trigger] scales.contains(s) <==> s >= 0 && exists|i: int|
            0 <= i < items.len() && (#[trigger] items[i]).0.len() > 0 && items[i].1 == s
    &&& forall|k: int|
        0 <= k < scales.len() ==> once_each(named_with(items, scales[k]), #[trigger] names[k])
    &&& text == joined(
        Seq::new(
            scales.len(),
            |k: int| called(areas, scales[k]) + ": "@ + twelve_of(names[k], unit),
        ),
        "\n"@,
    )
}

/// On the line of an intensity stand the first twelve of the distinct names that have it, in
/// the order in which they come, and the number of the others: none is left out of the count.
pub proof fn lemma_names_are_written_or_counted(names: Seq<Seq<char>>, unit: Seq<char>)
    ensures
        names_text(names, unit) == twelve_of(names, unit),
        names.len() > 12 ==> names_text(names, unit) == names_text(names.subrange(0, 12), unit)
            + " ほか"@ + decimal_text((names.len() - 12) as nat) + unit,
        names.len() <= 12 ==> names_text(names, unit) == joined(names, "、"@),
{
    if names.len() > 12 {
        assert(names.take(12) =~= names.subrange(0, 12));
        assert(names_text(names, unit) =~= twelve_of(names, unit));
    }
}

proof fn lemma_named_with(items: Seq<(Seq<char>, i32)>, scale: i32)
    ensures
        prefs_with(items, scale) == named_with(items, scale),
    decreases items.len(),
{
    if items.len() > 0 {
        lemma_named_with(items.drop_last(), scale);
    }
    assert(prefs_with(items, scale) =~= named_with(items, scale));
}

proof fn lemma_shown_scales(items: Seq<(Seq<char>, i32)>, below: int, s: i32)
    ensures
        shown_scales(items, below).contains(s) <==> 0 <= s < below && exists|i: int|
            0 <= i < items.len() && (#[trigger] items[i]).0.len() > 0 && items[i].1 == s,
    decreases below,
{
    lemma_next_scale(items, below);
    lemma_next_scale_bounds(items, below);
    match next_scale(items, below) {
        Some(scale) => {
            lemma_shown_scales(items, scale as int, s);
            let all = shown_scales(items, below);
            let rest = shown_scales(items, scale as int);
            assert(all[0] == scale);
            if all.contains(s) && s != scale {
                let k = choose|k: int| 0 <= k < all.len() && all[k] == s;
                assert(rest[k - 1] == s);
            }
            if rest.contains(s) {
                let k = choose|k: int| 0 <= k < rest.len() && rest[k] == s;
                assert(all[k + 1] == s);
            }
        },
        None => {},
    }
}

/// Names are listed by intensity, the strongest first, each on the line of its intensity: there
/// is a line for an intensity exactly if something named has it.
pub proof fn lemma_names_are_listed_by_intensity(
    items: Seq<(Seq<char>, i32)>,
    unit: Seq<char>,
    areas: Seq<EewArea>,
)
    ensures
        groups_text(items, unit, areas) matches Some(text) ==> exists|
            scales: Seq<i32>,
            names: Seq<Seq<Seq<char>>>,
        |
            #[trigger] lines_by_intensity(items, unit, areas, scales, names, text),
        groups_text(items, unit, areas) is None ==> forall|i: int|
            0 <= i < items.len() ==> (#[trigger] items[i]).0.len() == 0 || items[i].1 < 0,
{
    let below = ABOVE_ALL_SCALES as int;
    let scales = shown_scales(items, below);
    let lines = scale_lines(items, below, unit, areas);
    lemma_lines_go_by_intensity(items, below, unit, areas);
    lemma_next_scale_bounds(items, below);
    let names = Seq::new(scales.len(), |k: int| distinct(prefs_with(items, scales[k])));
    assert forall|s: i32| #[trigger] scales.contains(s) <==> s >= 0 && exists|i: int|
        0 <= i < items.len() && (#[trigger] items[i]).0.len() > 0 && items[i].1 == s by {
        lemma_shown_scales(items, below, s);
    }
    assert forall|k: int| 0 <= k < scales.len() implies once_each(
        named_with(items, scales[k]),
        #[trigger] names[k],
    ) by {
        lemma_named_with(items, scales[k]);
        lemma_repetitions_are_left_out(prefs_with(items, scales[k]));
    }
    let written = Seq::new(
        scales.len(),
        |k: int| called(areas, scales[k]) + ": "@ + twelve_of(names[k], unit),
    );
    assert forall|k: int| 0 <= k < scales.len() implies lines[k] == #[trigger] written[k] by {
        assert(lines[k] == scale_line(items, scales[k], unit, areas));
        lemma_called(areas, scales[k]);
        lemma_names_are_written_or_counted(names[k], unit);
    }
    assert(lines =~= written);
    if lines.len() > 0 {
        let text = joined(lines, "\n"@);
        assert(groups_text(items, unit, areas) == Some(text));
        assert(lines_by_intensity(items, unit, areas, scales, names, text));
        assert(exists|a: Seq<i32>, b: Seq<Seq<Seq<char>>>|
            #[trigger] lines_by_intensity(items, unit, areas, a, b, text));
        assert(groups_text(items, unit, areas)->0 == text);
    } else {
        assert(next_scale(items, below) is None);
        assert forall|i: int| 0 <= i < items.len() implies (#[trigger] items[i]).0.len() == 0
            || items[i].1 < 0 by {
            assert(items[i].1 < below);
        }
    }
}

/// What is read from a post is what was put into it.
pub(crate) proof fn lemma_frame(
    title: Seq<char>,
    text: Seq<char>,
    color: int,
    fields: Option<Seq<JsonView>>,
    footer: Seq<char>,
    image: bool,
)
    ensures
        ({
            let post = payload_view(embed_view(title, text, color, fields, footer, image));
            &&& has_one_embed(post)
            &&& framed(post, title, text, color, footer)
            &&& shows_map(post) == image
            &&& embed_in(post).member_list("fields"@) == fields
            &&& fields is None ==> embed_in(post).member("fields"@) is None
            &&& !image ==> embed_in(post).member("image"@) is None
        }),
{
    reveal_strlit("title");
    reveal_strlit("description");
    reveal_strlit("color");
    reveal_strlit("fields");
    reveal_strlit("footer");
    reveal_strlit("image");
    reveal_strlit("attachment://");
    reveal_strlit("quake.webp");
    reveal_strlit("attachment://quake.webp");
    assert("title"@[0] == 't' && "color"@[0] == 'c' && "image"@[0] == 'i');
    assert("fields"@[1] == 'i' && "footer"@[1] == 'o');
    assert("attachment://"@ + "quake.webp"@ =~= "attachment://quake.webp"@);
    let post = payload_view(embed_view(title, text, color, fields, footer, image));
    let embed = embed_view(title, text, color, fields, footer, image);
    assert(embed_in(post) == embed);
}

proof fn lemma_field(name: Seq<char>, value: Seq<char>, inline: bool)
    ensures
        reads(field_view(name, value, inline), name, value),
        field_view(name, value, inline).member_bool("inline"@) == Some(inline),
{
    reveal_strlit("name");
    reveal_strlit("value");
    reveal_strlit("inline");
    assert("name"@.len() == 4 && "value"@.len() == 5 && "inline"@.len() == 6);
}

/// A warning that stands tells of the earthquake what is known of it: where it began, how
/// strong and how deep it is and when the warning was issued, each in the field of that name.
pub proof fn lemma_warning_tells_of_the_earthquake(
    eew: Eew,
    reason: Seq<char>,
    with_image: bool,
    is_test: bool,
)
    requires
        !eew.cancelled,
    ensures
        ({
            let post = eew_payload(eew, reason, with_image, is_test);
            let hypo = eew.earthquake.hypocenter;
            &&& has_one_embed(post)
            &&& fields_in(post).len() == 5
            &&& says(post, "震源地"@, known_or_not(hypo.name@))
            &&& says(post, "マグニチュード"@, of_magnitude(hypo.magnitude))
            &&& says(post, "深さ"@, of_depth(hypo.depth))
            &&& says(post, "発表時刻"@, known_or_not(eew.issue.time@))
            &&& says(post, "強い揺れが予想される地域"@, areas_text(eew.areas@))
        }),
{
    let post = eew_payload(eew, reason, with_image, is_test);
    let hypo = eew.earthquake.hypocenter;
    lemma_warning_fields(eew, reason, with_image, is_test);
    reveal_strlit("震源地");
    reveal_strlit("マグニチュード");
    reveal_strlit("深さ");
    reveal_strlit("発表時刻");
    reveal_strlit("強い揺れが予想される地域");
    let f = fields_in(post);
    assert(reads(f[0], "震源地"@, known_or_not(hypo.name@)));
    assert(reads(f[1], "マグニチュード"@, of_magnitude(hypo.magnitude)));
    assert(reads(f[2], "深さ"@, of_depth(hypo.depth)));
    assert(reads(f[3], "発表時刻"@, known_or_not(eew.issue.time@)));
    assert(reads(f[4], "強い揺れが予想される地域"@, areas_text(eew.areas@)));
    assert("震源地"@.len() == 3 && "マグニチュード"@.len() == 7 && "深さ"@.len() == 2);
    assert("発表時刻"@.len() == 4 && "強い揺れが予想される地域"@.len() == 12);
    lemma_says(post, 0, "震源地"@, known_or_not(hypo.name@));
    lemma_says(post, 1, "マグニチュード"@, of_magnitude(hypo.magnitude));
    lemma_says(post, 2, "深さ"@, of_depth(hypo.depth));
    lemma_says(post, 3, "発表時刻"@, known_or_not(eew.issue.time@));
    lemma_says(post, 4, "強い揺れが予想される地域"@, areas_text(eew.areas@));
}

proof fn lemma_says(post: JsonView, k: int, name: Seq<char>, value: Seq<char>)
    requires
        0 <= k < fields_in(post).len(),
        reads(fields_in(post)[k], name, value),
        forall|j: int|
            0 <= j < fields_in(post).len() && j != k ==> (#[trigger] fields_in(
                post,
            )[j]).member_text("name"@) != Some(name),
    ensures
        says(post, name, value),
{
}

pub(crate) proof fn lemma_warning_fields(eew: Eew, reason: Seq<char>, with_image: bool, is_test: bool)
    requires
        !eew.cancelled,
    ensures
        ({
            let post = eew_payload(eew, reason, with_image, is_test);
            let hypo = eew.earthquake.hypocenter;
            let f = fields_in(post);
            &&& has_one_embed(post)
            &&& embed_in(post).member_list("fields"@) is Some
            &&& f.len() == 5
            &&& reads(f[0], "震源地"@, known_or_not(hypo.name@))
            &&& reads(f[1], "マグニチュード"@, of_magnitude(hypo.magnitude))
            &&& reads(f[2], "深さ"@, of_depth(hypo.depth))
            &&& reads(f[3], "発表時刻"@, known_or_not(eew.issue.time@))
            &&& reads(f[4], "強い揺れが予想される地域"@, areas_text(eew.areas@))
            &&& f[0].member_bool("inline"@) == Some(true)
            &&& f[1].member_bool("inline"@) == Some(true)
            &&& f[2].member_bool("inline"@) == Some(true)
            &&& f[3].member_bool("inline"@) == Some(false)
            &&& f[4].member_bool("inline"@) == Some(false)
            &&& framed(
                post,
                (if is_test {
                    "🧪【テスト通知】"@
                } else {
                    ""@
                }) + "⚡ 緊急地震速報（予想最大震度 "@ + called(
                    eew.areas@,
                    forecast_max(eew.areas@),
                ) + "）"@,
                reason + "（速報・予想値のため続報で変わることがあります）"@,
                color_of(forecast_max(eew.areas@)),
                if with_image {
                    "出典: 気象庁 緊急地震速報（P2P地震情報経由・予想値）"@ + MAP_CREDIT@
                        + STATION_CREDIT@
                } else {
                    "出典: 気象庁 緊急地震速報（P2P地震情報経由・予想値）"@
                },
            )
            &&& shows_map(post) == with_image
        }),
{
    let hypo = eew.earthquake.hypocenter;
    let largest = forecast_max(eew.areas@);
    let fields = seq![
        field_view("震源地"@, known_or_not(hypo.name@), true),
        field_view("マグニチュード"@, of_magnitude(hypo.magnitude), true),
        field_view("深さ"@, of_depth(hypo.depth), true),
        field_view("発表時刻"@, known_or_not(eew.issue.time@), false),
        field_view("強い揺れが予想される地域"@, areas_text(eew.areas@), false),
    ];
    lemma_called(eew.areas@, largest);
    let title = (if is_test {
        "🧪【テスト通知】"@
    } else {
        ""@
    }) + "⚡ 緊急地震速報（予想最大震度 "@ + called(eew.areas@, largest) + "）"@;
    let text = reason + "（速報・予想値のため続報で変わることがあります）"@;
    let footer = if with_image {
        "出典: 気象庁 緊急地震速報（P2P地震情報経由・予想値）"@ + MAP_CREDIT@ + STATION_CREDIT@
    } else {
        "出典: 気象庁 緊急地震速報（P2P地震情報経由・予想値）"@
    };
    lemma_frame(title, text, color_of(largest), Some(fields), footer, with_image);
    assert(eew_payload(eew, reason, with_image, is_test) == payload_view(
        embed_view(title, text, color_of(largest), Some(fields), footer, with_image),
    ));
    lemma_field("震源地"@, known_or_not(hypo.name@), true);
    lemma_field("マグニチュード"@, of_magnitude(hypo.magnitude), true);
    lemma_field("深さ"@, of_depth(hypo.depth), true);
    lemma_field("発表時刻"@, known_or_not(eew.issue.time@), false);
    lemma_field("強い揺れが予想される地域"@, areas_text(eew.areas@), false);
}

/// A warning that stands is headed by the largest intensity of its forecast and coloured by it,
/// with the reason and the sources; a test is marked as one.
pub proof fn lemma_warning_is_headed_by_its_largest_intensity(
    eew: Eew,
    reason: Seq<char>,
    with_image: bool,
    is_test: bool,
    largest: i32,
)
    requires
        !eew.cancelled,
        is_largest(eew.areas@, largest),
    ensures
        ({
            let post = eew_payload(eew, reason, with_image, is_test);
            &&& framed(
                post,
                (if is_test {
                    "🧪【テスト通知】"@
                } else {
                    ""@
                }) + "⚡ 緊急地震速報（予想最大震度 "@ + called(eew.areas@, largest) + "）"@,
                reason + "（速報・予想値のため続報で変わることがあります）"@,
                color_of(largest),
                if with_image {
                    "出典: 気象庁 緊急地震速報（P2P地震情報経由・予想値）"@ + MAP_CREDIT@
                        + STATION_CREDIT@
                } else {
                    "出典: 気象庁 緊急地震速報（P2P地震情報経由・予想値）"@
                },
            )
            &&& shows_map(post) == with_image
        }),
{
    lemma_warning_fields(eew, reason, with_image, is_test);
    lemma_largest(eew.areas@, largest);
}

pub(crate) proof fn lemma_largest(areas: Seq<EewArea>, largest: i32)
    requires
        is_largest(areas, largest),
    ensures
        forecast_max(areas) == largest,
{
    if areas.len() > 0 {
        lemma_forecast_max(areas);
        let i = choose|i: int| 0 <= i < areas.len() && counted(#[trigger] areas[i]) == largest;
        let k = choose|k: int|
            0 <= k < areas.len() && forecast_scale(#[trigger] areas[k]) == forecast_max(areas);
        assert(forecast_scale(areas[i]) <= forecast_max(areas));
        assert(counted(areas[k]) <= largest);
    }
}

/// What is said of the magnitude depends on the magnitude alone and what is said of the depth
/// on the depth alone, whatever else differs between two warnings.
pub proof fn lemma_magnitude_and_depth_are_told_apart(
    a: Eew,
    b: Eew,
    reason_a: Seq<char>,
    reason_b: Seq<char>,
    with_image: bool,
    is_test: bool,
    value: Seq<char>,
)
    requires
        !a.cancelled,
        !b.cancelled,
    ensures
        ({
            let p = eew_payload(a, reason_a, with_image, is_test);
            let q = eew_payload(b, reason_b, with_image, is_test);
            let (x, y) = (a.earthquake.hypocenter, b.earthquake.hypocenter);
            &&& x.magnitude.value == y.magnitude.value && x.magnitude.shown@ == y.magnitude.shown@
                ==> says(p, "マグニチュード"@, value) == says(q, "マグニチュード"@, value)
            &&& x.depth.value == y.depth.value && x.depth.shown@ == y.depth.shown@ ==> says(
                p,
                "深さ"@,
                value,
            ) == says(q, "深さ"@, value)
        }),
{
    lemma_warning_tells_of_the_earthquake(a, reason_a, with_image, is_test);
    lemma_warning_tells_of_the_earthquake(b, reason_b, with_image, is_test);
    let p = eew_payload(a, reason_a, with_image, is_test);
    let q = eew_payload(b, reason_b, with_image, is_test);
    let (x, y) = (a.earthquake.hypocenter, b.earthquake.hypocenter);
    lemma_one_value(p, "マグニチュード"@, value, of_magnitude(x.magnitude));
    lemma_one_value(q, "マグニチュード"@, value, of_magnitude(y.magnitude));
    lemma_one_value(p, "深さ"@, value, of_depth(x.depth));
    lemma_one_value(q, "深さ"@, value, of_depth(y.depth));
}

/// A post says one thing under a name.
pub proof fn lemma_one_value(post: JsonView, name: Seq<char>, a: Seq<char>, b: Seq<char>)
    requires
        says(post, name, b),
    ensures
        says(post, name, a) == (a == b),
{
}

/// A warning that is withdrawn says so and nothing of the earthquake.
pub proof fn lemma_withdrawn_warning_says_only_that(
    eew: Eew,
    reason: Seq<char>,
    with_image: bool,
    is_test: bool,
)
    requires
        eew.cancelled,
    ensures
        ({
            let post = eew_payload(eew, reason, with_image, is_test);
            &&& has_one_embed(post)
            &&& embed_in(post).member("fields"@) is None
            &&& embed_in(post).member("image"@) is None
            &&& framed(
                post,
                (if is_test {
                    "🧪【テスト通知】"@
                } else {
                    ""@
                }) + "⚠️ 緊急地震速報 取消"@,
                "先ほどの緊急地震速報は取り消されました。"@,
                0x808080,
                "出典: 気象庁 緊急地震速報（P2P地震情報経由）"@,
            )
        }),
{
    lemma_frame(
        (if is_test {
            "🧪【テスト通知】"@
        } else {
            ""@
        }) + "⚠️ 緊急地震速報 取消"@,
        "先ほどの緊急地震速報は取り消されました。"@,
        0x808080,
        None,
        "出典: 気象庁 緊急地震速報（P2P地震情報経由）"@,
        false,
    );
}

/// What the areas of a warning are listed by: those in which shaking is felt, by name, with the
/// intensity that they are counted with.
pub open spec fn felt_areas(areas: Seq<EewArea>) -> Seq<(Seq<char>, i32)> {
    areas.filter_map(
        |a: EewArea|
            if counted(a) > 0 {
                Some((a.name@, counted(a)))
            } else {
                None
            },
    )
}

/// What observed points are listed by: their names, or their prefectures where they have none,
/// with their intensities.
pub open spec fn felt_points(points: Seq<Point>) -> Seq<(Seq<char>, i32)> {
    points.map_values(
        |p: Point|
            (
                if p.addr@.len() > 0 {
                    p.addr@
                } else {
                    p.pref@
                },
                p.scale,
            ),
    )
}

/// The areas in which shaking is felt are listed by intensity; without one there is a dash.
pub proof fn lemma_areas_are_listed_by_intensity(areas: Seq<EewArea>)
    ensures
        (forall|i: int|
            0 <= i < areas.len() ==> (#[trigger] areas[i]).name@.len() == 0 || counted(areas[i])
                <= 0) ==> areas_text(areas) == "—"@,
        (exists|i: int|
            0 <= i < areas.len() && (#[trigger] areas[i]).name@.len() > 0 && counted(areas[i]) > 0)
            ==> exists|scales: Seq<i32>, names: Seq<Seq<Seq<char>>>|
            #[trigger] lines_by_intensity(
                felt_areas(areas),
                "地域"@,
                areas,
                scales,
                names,
                areas_text(areas),
            ),
{
    let items = area_items(areas);
    lemma_felt_areas(areas);
    lemma_names_are_listed_by_intensity(items, "地域"@, areas);
    if groups_text(items, "地域"@, areas) is None {
        assert forall|i: int| 0 <= i < areas.len() implies (#[trigger] areas[i]).name@.len() == 0
            || counted(areas[i]) <= 0 by {
            if counted(areas[i]) > 0 {
                let k = choose|k: int|
                    0 <= k < items.len() && items[k] == (areas[i].name@, counted(areas[i]));
                assert(items[k].0.len() == 0 || items[k].1 < 0);
            }
        }
    } else {
        let text = groups_text(items, "地域"@, areas)->0;
        assert(areas_text(areas) == text);
        let (scales, names) = choose|scales: Seq<i32>, names: Seq<Seq<Seq<char>>>|
            #[trigger] lines_by_intensity(items, "地域"@, areas, scales, names, text);
        assert(scales.contains(scales[0]));
        let k = choose|k: int|
            0 <= k < items.len() && (#[trigger] items[k]).0.len() > 0 && items[k].1 == scales[0];
        let i = choose|i: int|
            0 <= i < areas.len() && items[k] == ((#[trigger] areas[i]).name@, counted(areas[i]))
                && counted(areas[i]) > 0;
        assert(areas[i].name@.len() > 0);
    }
}

proof fn lemma_felt_areas(areas: Seq<EewArea>)
    ensures
        area_items(areas) == felt_areas(areas),
        forall|i: int|
            0 <= i < areas.len() && counted(#[trigger] areas[i]) > 0 ==> area_items(
                areas,
            ).contains((areas[i].name@, counted(areas[i]))),
        forall|k: int|
            0 <= k < area_items(areas).len() ==> exists|i: int|
                0 <= i < areas.len() && #[trigger] area_items(areas)[k] == (
                    (#[trigger] areas[i]).name@,
                    counted(areas[i]),
                ) && counted(areas[i]) > 0,
    decreases areas.len(),
{
    let now = area_items(areas);
    if areas.len() > 0 {
        let rest = areas.drop_last();
        let before = area_items(rest);
        lemma_felt_areas(rest);
        let n = rest.len() as int;
        assert(areas[n] == areas.last());
        assert forall|i: int| 0 <= i < areas.len() && counted(#[trigger] areas[i])
            > 0 implies now.contains((areas[i].name@, counted(areas[i]))) by {
            if i < n {
                assert(rest[i] == areas[i]);
                let k = choose|k: int|
                    0 <= k < before.len() && before[k] == (areas[i].name@, counted(areas[i]));
                assert(now[k] == before[k]);
            } else {
                assert(now[before.len() as int] == (areas[i].name@, counted(areas[i])));
            }
        }
        assert forall|k: int| 0 <= k < now.len() implies exists|i: int|
            0 <= i < areas.len() && #[trigger] now[k] == (
                (#[trigger] areas[i]).name@,
                counted(areas[i]),
            ) && counted(areas[i]) > 0 by {
            if k < before.len() {
                assert(now[k] == before[k]);
                let i = choose|i: int|
                    0 <= i < rest.len() && before[k] == (
                        (#[trigger] rest[i]).name@,
                        counted(rest[i]),
                    ) && counted(rest[i]) > 0;
                assert(areas[i] == rest[i]);
            } else {
                assert(now[k] == (areas[n].name@, counted(areas[n])));
            }
        }
    }
    assert(area_items(areas) =~= felt_areas(areas));
}

/// A report of an earthquake tells what is known of it, each in the field of that name: where it
/// began, how strong and how deep it is, when it happened and whether there is a tsunami.
pub proof fn lemma_report_tells_of_the_earthquake(
    quake: JmaQuake,
    reason: Seq<char>,
    with_image: bool,
    is_test: bool,
)
    ensures
        ({
            let post = quake_payload(quake, reason, with_image, is_test);
            let eq = quake.earthquake;
            &&& has_one_embed(post)
            &&& says(post, "震源地"@, known_or_not(eq.hypocenter.name@))
            &&& says(post, "マグニチュード"@, of_magnitude(eq.hypocenter.magnitude))
            &&& says(post, "深さ"@, of_depth(eq.hypocenter.depth))
            &&& says(post, "発生時刻"@, known_or_not(eq.time@))
            &&& says(post, "津波"@, tsunami_text(eq.domestic_tsunami@))
        }),
{
    lemma_report_fields(quake, reason, with_image, is_test);
}

/// A report of an earthquake lists the observed points by intensity, if there are any with a
/// name, and has no field of them otherwise.
pub proof fn lemma_report_lists_the_points(
    quake: JmaQuake,
    reason: Seq<char>,
    with_image: bool,
    is_test: bool,
)
    ensures
        ({
            let post = quake_payload(quake, reason, with_image, is_test);
            let items = felt_points(quake.points@);
            &&& (exists|i: int|
                0 <= i < items.len() && (#[trigger] items[i]).0.len() > 0 && items[i].1 >= 0)
                ==> exists|scales: Seq<i32>, names: Seq<Seq<Seq<char>>>, text: Seq<char>|
                #[trigger] lines_by_intensity(
                    items,
                    "地点"@,
                    Seq::empty(),
                    scales,
                    names,
                    text,
                ) && says(post, "各地の震度"@, text)
            &&& (forall|i: int|
                0 <= i < items.len() ==> (#[trigger] items[i]).0.len() == 0 || items[i].1 < 0)
                ==> says_nothing_of(post, "各地の震度"@)
        }),
{
    let post = quake_payload(quake, reason, with_image, is_test);
    let items = felt_points(quake.points@);
    assert(items =~= point_items(quake.points@));
    lemma_report_fields(quake, reason, with_image, is_test);
    lemma_names_are_listed_by_intensity(items, "地点"@, Seq::empty());
    match groups_text(items, "地点"@, Seq::empty()) {
        Some(text) => {
            let (scales, names) = choose|scales: Seq<i32>, names: Seq<Seq<Seq<char>>>|
                #[trigger] lines_by_intensity(
                    items,
                    "地点"@,
                    Seq::empty(),
                    scales,
                    names,
                    text,
                );
            assert(says(post, "各地の震度"@, text));
            assert(scales.contains(scales[0]));
            let k = choose|k: int|
                0 <= k < items.len() && (#[trigger] items[k]).0.len() > 0 && items[k].1
                    == scales[0];
            assert(items[k].1 >= 0);
        },
        None => {},
    }
}

pub(crate) proof fn lemma_report_fields(quake: JmaQuake, reason: Seq<char>, with_image: bool, is_test: bool)
    ensures
        ({
            let post = quake_payload(quake, reason, with_image, is_test);
            let eq = quake.earthquake;
            let listed = groups_text(point_items(quake.points@), "地点"@, Seq::empty());
            &&& has_one_embed(post)
            &&& says(post, "震源地"@, known_or_not(eq.hypocenter.name@))
            &&& says(post, "マグニチュード"@, of_magnitude(eq.hypocenter.magnitude))
            &&& says(post, "深さ"@, of_depth(eq.hypocenter.depth))
            &&& says(post, "発生時刻"@, known_or_not(eq.time@))
            &&& says(post, "津波"@, tsunami_text(eq.domestic_tsunami@))
            &&& embed_in(post).member_list("fields"@) is Some
            &&& listed matches Some(text) ==> says(post, "各地の震度"@, text)
            &&& listed is None ==> says_nothing_of(post, "各地の震度"@)
            &&& framed(
                post,
                quake_heading(quake, is_test),
                quake_words(quake, reason),
                color_of(eq.max_scale),
                quake_sources(with_image, is_test),
            )
            &&& shows_map(post) == with_image
        }),
{
    let post = quake_payload(quake, reason, with_image, is_test);
    let eq = quake.earthquake;
    let listed = groups_text(point_items(quake.points@), "地点"@, Seq::empty());
    let head = seq![
        field_view("震源地"@, known_or_not(eq.hypocenter.name@), true),
        field_view("マグニチュード"@, of_magnitude(eq.hypocenter.magnitude), true),
        field_view("深さ"@, of_depth(eq.hypocenter.depth), true),
        field_view("発生時刻"@, known_or_not(eq.time@), false),
    ];
    let last = field_view("津波"@, tsunami_text(eq.domestic_tsunami@), false);
    let fields = match listed {
        Some(text) => head.push(field_view("各地の震度"@, text, false)).push(last),
        None => head.push(last),
    };
    assert(quake_heading(quake, is_test) =~= crate::discord::quake_title(quake, is_test)) by {
        reveal_strlit("");
    }
    lemma_frame(
        quake_heading(quake, is_test),
        quake_words(quake, reason),
        color_of(eq.max_scale),
        Some(fields),
        quake_sources(with_image, is_test),
        with_image,
    );
    assert(post == payload_view(
        embed_view(
            quake_heading(quake, is_test),
            quake_words(quake, reason),
            color_of(eq.max_scale),
            Some(fields),
            quake_sources(with_image, is_test),
            with_image,
        ),
    ));
    assert(fields_in(post) == fields);
    lemma_field("震源地"@, known_or_not(eq.hypocenter.name@), true);
    lemma_field("マグニチュード"@, of_magnitude(eq.hypocenter.magnitude), true);
    lemma_field("深さ"@, of_depth(eq.hypocenter.depth), true);
    lemma_field("発生時刻"@, known_or_not(eq.time@), false);
    lemma_field("津波"@, tsunami_text(eq.domestic_tsunami@), false);
    reveal_strlit("震源地");
    reveal_strlit("マグニチュード");
    reveal_strlit("深さ");
    reveal_strlit("発生時刻");
    reveal_strlit("各地の震度");
    reveal_strlit("津波");
    assert("震源地"@.len() == 3 && "マグニチュード"@.len() == 7 && "深さ"@.len() == 2);
    assert("発生時刻"@.len() == 4 && "各地の震度"@.len() == 5 && "津波"@.len() == 2);
    assert("深さ"@[0] == '深' && "津波"@[0] == '津');
    let n = fields.len() - 1;
    match listed {
        Some(text) => {
            lemma_field("各地の震度"@, text, false);
            lemma_says(post, 4, "各地の震度"@, text);
        },
        None => {},
    }
    lemma_says(post, 0, "震源地"@, known_or_not(eq.hypocenter.name@));
    lemma_says(post, 1, "マグニチュード"@, of_magnitude(eq.hypocenter.magnitude));
    lemma_says(post, 2, "深さ"@, of_depth(eq.hypocenter.depth));
    lemma_says(post, 3, "発生時刻"@, known_or_not(eq.time@));
    lemma_says(post, n, "津波"@, tsunami_text(eq.domestic_tsunami@));
}

/// How a report of an earthquake is headed: whether it is a test, a mark if a tsunami is spoken
/// of, whether it is the prompt report, and the largest intensity.
pub open spec fn quake_heading(quake: JmaQuake, is_test: bool) -> Seq<char> {
    let code = quake.earthquake.domestic_tsunami@;
    let spoken_of = code == "NonEffective"@ || code == "Watch"@ || code == "Warning"@ || code
        == "Checking"@;
    (if is_test {
        "🧪【テスト通知】"@
    } else {
        "🚨"@
    }) + (if spoken_of {
        "🌊"@
    } else {
        Seq::empty()
    }) + (if is_test {
        Seq::empty()
    } else {
        " "@
    }) + (if quake.issue.issue_type@ == "ScalePrompt"@ {
        "震度速報"@
    } else {
        "地震情報"@
    }) + "（最大震度 "@ + scale_text(quake.earthquake.max_scale) + "）"@
}

/// What a report of an earthquake says first: the reason, and in the prompt report that more
/// will follow.
pub open spec fn quake_words(quake: JmaQuake, reason: Seq<char>) -> Seq<char> {
    if quake.issue.issue_type@ == "ScalePrompt"@ {
        reason + "（速報のため続報で震源・規模などの詳細が入ります）"@
    } else {
        reason
    }
}

/// What a report of an earthquake says last: its sources, those of the map if there is one, and
/// whether it is a test.
pub open spec fn quake_sources(with_image: bool, is_test: bool) -> Seq<char> {
    let sources = if with_image {
        "出典: 気象庁（P2P地震情報経由）"@ + MAP_CREDIT@ + STATION_CREDIT@
    } else {
        "出典: 気象庁（P2P地震情報経由）"@
    };
    if is_test {
        sources + " ・ これはテスト送信です"@
    } else {
        sources
    }
}

/// A report of an earthquake is headed by its largest intensity and coloured by it, says the
/// reason and the sources, and shows the map exactly if there is one.
pub proof fn lemma_report_is_headed_by_its_largest_intensity(
    quake: JmaQuake,
    reason: Seq<char>,
    with_image: bool,
    is_test: bool,
)
    ensures
        ({
            let post = quake_payload(quake, reason, with_image, is_test);
            &&& framed(
                post,
                quake_heading(quake, is_test),
                quake_words(quake, reason),
                color_of(quake.earthquake.max_scale),
                quake_sources(with_image, is_test),
            )
            &&& shows_map(post) == with_image
        }),
{
    lemma_report_fields(quake, reason, with_image, is_test);
}

/// A place that is watched, within its prefecture and by its whole name.
pub open spec fn is_of(w: WatchedPoint, pref: Seq<char>, name: Seq<char>) -> bool {
    w.name@ == name && pref_key(w.pref@) == pref_key(pref)
}

/// An intensity that has a name.
pub open spec fn has_name(scale: i32) -> bool {
    scale_text(scale) != "不明"@
}

proof fn lemma_has_name(scale: i32)
    ensures
        crate::intensity::known_scale(scale) == has_name(scale),
{
    reveal_strlit("1");
    reveal_strlit("2");
    reveal_strlit("3");
    reveal_strlit("4");
    reveal_strlit("5弱");
    reveal_strlit("5弱以上");
    reveal_strlit("5強");
    reveal_strlit("6弱");
    reveal_strlit("6強");
    reveal_strlit("7");
    reveal_strlit("不明");
    assert("不明"@[0] == '不' && "5弱"@[0] == '5' && "5強"@[0] == '5' && "6弱"@[0] == '6');
    assert("6強"@[0] == '6' && "不明"@.len() == 2);
}

/// The largest intensity with a name that was observed at a watched place.
pub open spec fn is_strongest(points: Seq<Point>, w: WatchedPoint, scale: i32) -> bool {
    &&& has_name(scale)
    &&& exists|i: int|
        0 <= i < points.len() && is_of(w, (#[trigger] points[i]).pref@, points[i].addr@)
            && points[i].scale == scale
    &&& forall|i: int|
        0 <= i < points.len() && is_of(w, (#[trigger] points[i]).pref@, points[i].addr@)
            && has_name(points[i].scale) ==> points[i].scale <= scale
}

/// An intensity with a name was observed at a watched place.
pub open spec fn felt_at(points: Seq<Point>, w: WatchedPoint) -> bool {
    exists|i: int|
        0 <= i < points.len() && is_of(w, (#[trigger] points[i]).pref@, points[i].addr@)
            && has_name(points[i].scale)
}

/// The line of a watched place: its label, if it has one, where it is, and the intensity.
pub open spec fn line_of(w: WatchedPoint, intensity: Seq<char>) -> Seq<char> {
    (if w.label@.len() > 0 {
        "**"@ + escaped(w.label@) + "（"@ + escaped(w.pref@) + "・"@ + escaped(w.name@)
    } else {
        "**"@ + escaped(w.name@) + "（"@ + escaped(w.pref@)
    }) + "）：震度"@ + intensity + "**"@
}

proof fn lemma_line_of(w: WatchedPoint, intensity: Seq<char>)
    ensures
        crate::discord::watched_text(w.place(), intensity) == line_of(w, intensity),
        line_of(w, intensity).len() > 0,
{
    reveal_strlit("）");
    reveal_strlit("：震度");
    reveal_strlit("）：震度");
    reveal_strlit("**");
    assert("）"@ + "：震度"@ =~= "）：震度"@);
    assert(crate::discord::watched_text(w.place(), intensity) =~= line_of(w, intensity));
}

proof fn lemma_strongest(points: Seq<Point>, w: WatchedPoint)
    ensures
        match watched_scale(points, w.place()) {
            Some(s) => is_strongest(points, w, s) && felt_at(points, w),
            None => !felt_at(points, w),
        },
    decreases points.len(),
{
    if points.len() > 0 {
        let rest = points.drop_last();
        let n = rest.len() as int;
        lemma_strongest(rest, w);
        lemma_has_name(points.last().scale);
        assert(points[n] == points.last());
        assert forall|i: int| 0 <= i < n implies points[i] == #[trigger] rest[i] by {}
        let best = watched_scale(rest, w.place());
        if best is Some {
            let i = choose|i: int|
                0 <= i < rest.len() && is_of(w, (#[trigger] rest[i]).pref@, rest[i].addr@)
                    && rest[i].scale == best->0;
            assert(points[i] == rest[i]);
            assert(is_of(w, points[i].pref@, points[i].addr@));
        }
        match watched_scale(points, w.place()) {
            Some(s) => {
                assert forall|i: int|
                    0 <= i < points.len() && is_of(w, (#[trigger] points[i]).pref@, points[i].addr@)
                        && has_name(points[i].scale) implies points[i].scale <= s by {
                    if i < n {
                        assert(rest[i] == points[i]);
                        assert(felt_at(rest, w));
                    }
                }
            },
            None => {
                if felt_at(points, w) {
                    let i = choose|i: int|
                        0 <= i < points.len() && is_of(
                            w,
                            (#[trigger] points[i]).pref@,
                            points[i].addr@,
                        ) && has_name(points[i].scale);
                    if i < n {
                        assert(rest[i] == points[i]);
                    }
                    assert(false);
                }
            },
        }
    }
}

/// The watched places at which a known intensity was observed, in order.
pub open spec fn felt_places(points: Seq<Point>, watched: Seq<WatchedPoint>) -> Seq<WatchedPoint> {
    watched.filter(|w: WatchedPoint| felt_at(points, w))
}

/// A line shows the largest intensity that was observed at a watched place.
pub open spec fn line_shows(
    points: Seq<Point>,
    w: WatchedPoint,
    scale: i32,
    line: Seq<char>,
) -> bool {
    is_strongest(points, w, scale) && line == line_of(w, scale_text(scale))
}

/// A line is the one of a watched place.
pub open spec fn is_line_of(points: Seq<Point>, w: WatchedPoint, line: Seq<char>) -> bool {
    exists|scale: i32| #[trigger] line_shows(points, w, scale, line)
}

/// There is a line for each watched place at which a known intensity was observed and for no
/// other, in the order in which they are watched, each with the largest intensity of its place.
pub proof fn lemma_each_watched_place_has_its_line(points: Seq<Point>, watched: Seq<WatchedPoint>)
    ensures
        watched_quake_lines(points, watched).len() == felt_places(points, watched).len(),
        forall|k: int|
            0 <= k < felt_places(points, watched).len() ==> is_line_of(
                points,
                #[trigger] felt_places(points, watched)[k],
                watched_quake_lines(points, watched)[k],
            ),
    decreases watched.len(),
{
    reveal(Seq::filter);
    let felt = felt_places(points, watched);
    let lines = watched_quake_lines(points, watched);
    if watched.len() > 0 {
        let rest = watched.drop_last();
        let w = watched.last();
        lemma_each_watched_place_has_its_line(points, rest);
        lemma_strongest(points, w);
        let before = felt_places(points, rest);
        let above = watched_quake_lines(points, rest);
        assert(felt == if felt_at(points, w) {
            before.push(w)
        } else {
            before
        });
        assert forall|k: int| 0 <= k < felt.len() implies is_line_of(
            points,
            #[trigger] felt[k],
            lines[k],
        ) by {
            if k < before.len() {
                assert(felt[k] == before[k] && lines[k] == above[k]);
            } else {
                let scale = watched_scale(points, w.place())->0;
                lemma_line_of(w, scale_text(scale));
                assert(line_shows(points, felt[k], scale, lines[k]));
            }
        }
    }
}

/// The line of a watched place is the same whatever is watched before it and after it.
pub proof fn lemma_watched_places_do_not_displace_each_other(
    points: Seq<Point>,
    areas: Seq<EewArea>,
    a: Seq<WatchedPoint>,
    b: Seq<WatchedPoint>,
)
    ensures
        watched_quake_lines(points, a + b) == watched_quake_lines(points, a) + watched_quake_lines(
            points,
            b,
        ),
        watched_eew_lines(areas, a + b) == watched_eew_lines(areas, a) + watched_eew_lines(
            areas,
            b,
        ),
    decreases b.len(),
{
    if b.len() == 0 {
        assert(a + b =~= a);
        assert(watched_quake_lines(points, a) + watched_quake_lines(points, b)
            =~= watched_quake_lines(points, a));
        assert(watched_eew_lines(areas, a) + watched_eew_lines(areas, b) =~= watched_eew_lines(
            areas,
            a,
        ));
    } else {
        assert((a + b).drop_last() =~= a + b.drop_last());
        assert((a + b).last() == b.last());
        lemma_watched_places_do_not_displace_each_other(points, areas, a, b.drop_last());
        assert(watched_quake_lines(points, a + b) =~= watched_quake_lines(points, a)
            + watched_quake_lines(points, b));
        assert(watched_eew_lines(areas, a + b) =~= watched_eew_lines(areas, a)
            + watched_eew_lines(areas, b));
    }
}

/// A forecast that bears on a watched place.
pub open spec fn bears_on(a: EewArea, w: WatchedPoint) -> bool {
    is_of(w, a.pref@, a.name@) && has_name(counted(a))
}

/// The forecast that is shown for a watched place: one that is open above rather than one that
/// is not, then the larger one, and of equal ones the last.
pub open spec fn is_shown_for(areas: Seq<EewArea>, w: WatchedPoint, i: int) -> bool {
    &&& 0 <= i < areas.len()
    &&& bears_on(areas[i], w)
    &&& forall|j: int|
        0 <= j < areas.len() && bears_on(#[trigger] areas[j], w) ==> {
            ||| areas[i].scale_to == 99 && areas[j].scale_to != 99
            ||| (areas[i].scale_to == 99 <==> areas[j].scale_to == 99) && (counted(areas[j])
                < counted(areas[i]) || counted(areas[j]) == counted(areas[i]) && j <= i)
        }
}

/// How a forecast reads for a watched place.
pub open spec fn forecast_reads(a: EewArea) -> Seq<char> {
    if a.scale_to == 99 {
        scale_text(a.scale_from) + "程度以上"@
    } else if a.scale_from < a.scale_to && has_name(a.scale_from) {
        scale_text(a.scale_from) + "〜"@ + scale_text(a.scale_to)
    } else {
        scale_text(a.scale_to)
    }
}

proof fn lemma_shown_for(areas: Seq<EewArea>, w: WatchedPoint)
    ensures
        match watched_area(areas, w.place()) {
            Some(i) => is_shown_for(areas, w, i),
            None => forall|j: int| 0 <= j < areas.len() ==> !bears_on(#[trigger] areas[j], w),
        },
    decreases areas.len(),
{
    if areas.len() > 0 {
        let rest = areas.drop_last();
        let n = rest.len() as int;
        lemma_shown_for(rest, w);
        lemma_has_name(forecast_scale(areas.last()));
        assert(areas[n] == areas.last());
        assert forall|j: int| 0 <= j < n implies areas[j] == #[trigger] rest[j] by {}
        match watched_area(areas, w.place()) {
            Some(i) => {
                assert forall|j: int|
                    0 <= j < areas.len() && bears_on(#[trigger] areas[j], w) implies {
                    ||| areas[i].scale_to == 99 && areas[j].scale_to != 99
                    ||| (areas[i].scale_to == 99 <==> areas[j].scale_to == 99) && (counted(
                        areas[j],
                    ) < counted(areas[i]) || counted(areas[j]) == counted(areas[i]) && j <= i)
                } by {
                    if j < n {
                        assert(bears_on(rest[j], w));
                        let k = watched_area(rest, w.place())->0;
                        assert(rest[k] == areas[k]);
                    }
                }
            },
            None => {
                assert forall|j: int| 0 <= j < areas.len() implies !bears_on(
                    #[trigger] areas[j],
                    w,
                ) by {
                    if j < n {
                        assert(!bears_on(rest[j], w));
                    }
                }
            },
        }
    }
}

/// The watched places that a forecast bears on, in order.
pub open spec fn due_places(areas: Seq<EewArea>, watched: Seq<WatchedPoint>) -> Seq<WatchedPoint> {
    watched.filter(|w: WatchedPoint| is_due(areas, w))
}

/// Some forecast bears on a watched place.
pub open spec fn is_due(areas: Seq<EewArea>, w: WatchedPoint) -> bool {
    exists|j: int| 0 <= j < areas.len() && bears_on(#[trigger] areas[j], w)
}

/// A line shows the forecast for a watched place.
pub open spec fn line_forecasts(
    areas: Seq<EewArea>,
    w: WatchedPoint,
    i: int,
    line: Seq<char>,
) -> bool {
    is_shown_for(areas, w, i) && line == line_of(w, forecast_reads(areas[i]))
}

/// A line is the one of a watched place in a warning.
pub open spec fn is_forecast_of(areas: Seq<EewArea>, w: WatchedPoint, line: Seq<char>) -> bool {
    exists|i: int| #[trigger] line_forecasts(areas, w, i, line)
}

/// There is a line for each watched place that a forecast bears on and for no other, in the
/// order in which they are watched, each with the forecast that is shown for its place. A
/// warning that is withdrawn has no line.
pub proof fn lemma_each_watched_place_has_its_forecast(eew: Eew, watched: Seq<WatchedPoint>)
    ensures
        eew.cancelled ==> watched_lines_of(eew, watched).len() == 0,
        !eew.cancelled ==> watched_lines_of(eew, watched).len() == due_places(
            eew.areas@,
            watched,
        ).len(),
        !eew.cancelled ==> forall|k: int|
            0 <= k < due_places(eew.areas@, watched).len() ==> is_forecast_of(
                eew.areas@,
                #[trigger] due_places(eew.areas@, watched)[k],
                watched_lines_of(eew, watched)[k],
            ),
{
    if !eew.cancelled {
        lemma_forecast_lines(eew.areas@, watched);
    }
}

proof fn lemma_forecast_lines(areas: Seq<EewArea>, watched: Seq<WatchedPoint>)
    ensures
        watched_eew_lines(areas, watched).len() == due_places(areas, watched).len(),
        forall|k: int|
            0 <= k < due_places(areas, watched).len() ==> is_forecast_of(
                areas,
                #[trigger] due_places(areas, watched)[k],
                watched_eew_lines(areas, watched)[k],
            ),
    decreases watched.len(),
{
    reveal(Seq::filter);
    let due = due_places(areas, watched);
    let lines = watched_eew_lines(areas, watched);
    if watched.len() > 0 {
        let rest = watched.drop_last();
        let w = watched.last();
        lemma_forecast_lines(areas, rest);
        lemma_shown_for(areas, w);
        let before = due_places(areas, rest);
        let above = watched_eew_lines(areas, rest);
        if watched_area(areas, w.place()) is Some {
            assert(bears_on(areas[watched_area(areas, w.place())->0], w));
        }
        assert(due == if is_due(areas, w) {
            before.push(w)
        } else {
            before
        });
        assert forall|k: int| 0 <= k < due.len() implies is_forecast_of(
            areas,
            #[trigger] due[k],
            lines[k],
        ) by {
            if k < before.len() {
                assert(due[k] == before[k] && lines[k] == above[k]);
            } else {
                let i = watched_area(areas, w.place())->0;
                lemma_has_name(areas[i].scale_from);
                assert(crate::discord::range_text(areas[i]) == forecast_reads(areas[i]));
                lemma_line_of(w, forecast_reads(areas[i]));
                assert(line_forecasts(areas, due[k], i, lines[k]));
            }
        }
    }
}

/// Of lines that say something, as many are shown as keep within 950 UTF-16 units with the line
/// feeds between them, and the others are counted: those shown and those counted are all.
pub proof fn lemma_lines_are_shown_or_counted(lines: Seq<Seq<char>>) -> (n: int)
    requires
        forall|k: int| 0 <= k < lines.len() ==> (#[trigger] lines[k]).len() > 0,
    ensures
        0 <= n <= lines.len(),
        watched_value(lines) == joined(lines.subrange(0, n), "\n"@) + (if n < lines.len() {
            "\nほか"@ + decimal_text((lines.len() - n) as nat) + "地点（表示上限）"@
        } else {
            Seq::empty()
        }),
        forall|k: int|
            0 <= k < n ==> utf16_units(joined(#[trigger] lines.subrange(0, k), "\n"@)) + utf16_units(
                lines[k],
            ) + 1 <= 950,
        n < lines.len() ==> utf16_units(joined(lines.subrange(0, n), "\n"@)) + utf16_units(lines[n])
            + 1 > 950,
{
    lemma_fits(lines, 0);
    let n = fitting(lines, 0) as int;
    assert(lines.take(n) =~= lines.subrange(0, n));
    lemma_stacked(lines.take(n));
    if n == lines.len() {
        assert(lines.take(n) =~= lines);
    }
    assert(watched_value(lines) =~= joined(lines.subrange(0, n), "\n"@) + (if n < lines.len() {
        "\nほか"@ + decimal_text((lines.len() - n) as nat) + "地点（表示上限）"@
    } else {
        Seq::empty()
    }));
    assert forall|k: int| 0 <= k < n implies utf16_units(
        joined(#[trigger] lines.subrange(0, k), "\n"@),
    ) + utf16_units(lines[k]) + 1 <= 950 by {
        assert(lines.take(k) =~= lines.subrange(0, k));
        lemma_stacked(lines.take(k));
    }
    n
}

proof fn lemma_stacked(lines: Seq<Seq<char>>)
    requires
        forall|k: int| 0 <= k < lines.len() ==> (#[trigger] lines[k]).len() > 0,
    ensures
        stacked(lines) == joined(lines, "\n"@),
        lines.len() > 0 ==> stacked(lines).len() > 0,
    decreases lines.len(),
{
    if lines.len() > 0 {
        let rest = lines.drop_last();
        assert forall|k: int| 0 <= k < rest.len() implies (#[trigger] rest[k]).len() > 0 by {
            assert(rest[k] == lines[k]);
        }
        assert(lines[lines.len() - 1].len() > 0);
        lemma_stacked(rest);
        if lines.len() == 1 {
            assert(rest =~= Seq::empty());
            assert(stacked(rest) =~= Seq::empty());
            assert(stacked(lines) =~= lines[0]);
        }
    }
}

proof fn lemma_fits(lines: Seq<Seq<char>>, n: nat)
    requires
        n <= lines.len(),
    ensures
        n <= fitting(lines, n) <= lines.len(),
        forall|k: int|
            n <= k < fitting(lines, n) ==> utf16_units(stacked(#[trigger] lines.take(k)))
                + utf16_units(lines[k]) + 1 <= 950,
        fitting(lines, n) < lines.len() ==> utf16_units(
            stacked(lines.take(fitting(lines, n) as int)),
        ) + utf16_units(lines[fitting(lines, n) as int]) + 1 > 950,
    decreases lines.len() - n,
{
    if n < lines.len() && utf16_units(stacked(lines.take(n as int))) + utf16_units(
        lines[n as int],
    ) + 1 <= 950 {
        lemma_fits(lines, n + 1);
    }
}

/// The lines for watched places become the first field of a post, under its title; the other
/// fields and everything else stay as they are. Without lines the post stays as it is.
pub proof fn lemma_watched_places_come_before_the_rest(
    post: JsonView,
    title: Seq<char>,
    lines: Seq<Seq<char>>,
)
    requires
        has_one_embed(post),
        embed_in(post).member_list("fields"@) is Some,
    ensures
        ({
            let after = with_watched(post, title, lines);
            &&& lines.len() == 0 ==> after == post
            &&& lines.len() > 0 ==> {
                &&& has_one_embed(after)
                &&& fields_in(after).len() == fields_in(post).len() + 1
                &&& reads(fields_in(after)[0], title, watched_value(lines))
                &&& fields_in(after)[0].member_bool("inline"@) == Some(false)
                &&& forall|k: int|
                    0 <= k < fields_in(post).len() ==> fields_in(after)[k + 1]
                        == #[trigger] fields_in(post)[k]
                &&& forall|key: Seq<char>|
                    key != "fields"@ ==> #[trigger] embed_in(after).member(key) == embed_in(
                        post,
                    ).member(key)
            }
        }),
{
    if lines.len() > 0 {
        lemma_field(title, watched_value(lines), false);
        let after = with_watched(post, title, lines);
        assert forall|key: Seq<char>| key != "embeds"@ implies #[trigger] after.member(
            key,
        ) is None by {
            assert(post.member(key) is None);
        }
        assert(has_one_embed(after));
        assert(embed_in(after).member_list("fields"@) is Some);
        assert(fields_in(after) =~= seq![field_view(title, watched_value(lines), false)]
            + fields_in(post));
    }
}

/// Some coast has a grade.
pub open spec fn some_coast(areas: Seq<TsunamiArea>, grade: Seq<char>) -> bool {
    exists|i: int| 0 <= i < areas.len() && (#[trigger] areas[i]).grade@ == grade
}

/// The names of the coasts that have a grade, in order.
pub open spec fn coasts_of(areas: Seq<TsunamiArea>, grade: Seq<char>) -> Seq<Seq<char>> {
    areas.filter_map(
        |a: TsunamiArea|
            if a.grade@ == grade {
                Some(a.name@)
            } else {
                None
            },
    )
}

/// The field of a post that tells of a grade: there is one exactly if some coast has the grade,
/// and it names every coast that has it, in order.
pub open spec fn tells_of_grade(
    post: JsonView,
    areas: Seq<TsunamiArea>,
    grade: Seq<char>,
    label: Seq<char>,
) -> bool {
    if some_coast(areas, grade) {
        says(post, label, joined(coasts_of(areas, grade), "、"@))
    } else {
        says_nothing_of(post, label)
    }
}

proof fn lemma_coasts(areas: Seq<TsunamiArea>, grade: Seq<char>)
    ensures
        coasts(areas, grade) == coasts_of(areas, grade),
        coasts(areas, grade).len() > 0 <==> some_coast(areas, grade),
        forall|i: int|
            0 <= i < areas.len() && (#[trigger] areas[i]).grade@ == grade ==> coasts(
                areas,
                grade,
            ).contains(areas[i].name@),
    decreases areas.len(),
{
    if areas.len() > 0 {
        let rest = areas.drop_last();
        let n = rest.len() as int;
        lemma_coasts(rest, grade);
        assert(areas[n] == areas.last());
        let now = coasts(areas, grade);
        let before = coasts(rest, grade);
        assert forall|i: int|
            0 <= i < areas.len() && (#[trigger] areas[i]).grade@ == grade implies now.contains(
            areas[i].name@,
        ) by {
            if i < n {
                assert(rest[i] == areas[i]);
                let k = choose|k: int| 0 <= k < before.len() && before[k] == areas[i].name@;
                assert(now[k] == before[k]);
            } else {
                assert(now[before.len() as int] == areas[i].name@);
            }
        }
        if some_coast(areas, grade) {
            let i = choose|i: int| 0 <= i < areas.len() && (#[trigger] areas[i]).grade@ == grade;
            if i < n {
                assert(rest[i].grade@ == grade);
            }
        }
        if some_coast(rest, grade) {
            let i = choose|i: int| 0 <= i < rest.len() && (#[trigger] rest[i]).grade@ == grade;
            assert(areas[i].grade@ == grade);
        }
    }
    assert(coasts(areas, grade) =~= coasts_of(areas, grade));
}

/// A tsunami forecast names every coast that has a grade under the name of the grade, and has
/// no field but those of the three grades.
pub proof fn lemma_every_coast_is_named_under_its_grade(tsunami: Tsunami, is_test: bool)
    requires
        !tsunami.cancelled,
    ensures
        ({
            let post = tsunami_payload(tsunami, is_test);
            let areas = tsunami.areas@;
            &&& has_one_embed(post)
            &&& embed_in(post).member_list("fields"@) is Some
            &&& tells_of_grade(post, areas, "MajorWarning"@, "大津波警報"@)
            &&& tells_of_grade(post, areas, "Warning"@, "津波警報"@)
            &&& tells_of_grade(post, areas, "Watch"@, "津波注意報"@)
            &&& forall|k: int|
                0 <= k < fields_in(post).len() ==> ({
                    let name = (#[trigger] fields_in(post)[k]).member_text("name"@);
                    name == Some("大津波警報"@) || name == Some("津波警報"@) || name == Some(
                        "津波注意報"@,
                    )
                })
        }),
{
    lemma_forecast_frame(tsunami, is_test);
    let post = tsunami_payload(tsunami, is_test);
    let areas = tsunami.areas@;
    let (x, y, z) = ("MajorWarning"@, "Warning"@, "Watch"@);
    let (l, m, n) = ("大津波警報"@, "津波警報"@, "津波注意報"@);
    lemma_grade_names();
    lemma_coasts(areas, x);
    lemma_coasts(areas, y);
    lemma_coasts(areas, z);
    let (a, b, c) = (
        joined(coasts(areas, x), "、"@),
        joined(coasts(areas, y), "、"@),
        joined(coasts(areas, z), "、"@),
    );
    lemma_field(l, a, false);
    lemma_field(m, b, false);
    lemma_field(n, c, false);
    let f = fields_in(post);
    assert(f == tsunami_fields(areas));
    let i: int = if some_coast(areas, x) {
        1
    } else {
        0
    };
    let j: int = if some_coast(areas, y) {
        i + 1
    } else {
        i
    };
    if some_coast(areas, x) {
        lemma_says(post, 0, l, a);
    }
    if some_coast(areas, y) {
        lemma_says(post, i, m, b);
    }
    if some_coast(areas, z) {
        lemma_says(post, j, n, c);
    }
}

proof fn lemma_grade_names()
    ensures
        "MajorWarning"@ != "Warning"@,
        "MajorWarning"@ != "Watch"@,
        "Warning"@ != "Watch"@,
        "大津波警報"@ != "津波警報"@,
        "大津波警報"@ != "津波注意報"@,
        "津波警報"@ != "津波注意報"@,
        "MajorWarning"@.len() > 0 && "Warning"@.len() > 0 && "Watch"@.len() > 0,
        grade_text("MajorWarning"@) == "大津波警報"@,
        grade_text("Warning"@) == "津波警報"@,
        grade_text("Watch"@) == "津波注意報"@,
{
    reveal_strlit("MajorWarning");
    reveal_strlit("Warning");
    reveal_strlit("Watch");
    reveal_strlit("大津波警報");
    reveal_strlit("津波警報");
    reveal_strlit("津波注意報");
    assert("MajorWarning"@.len() == 12 && "Warning"@.len() == 7 && "Watch"@.len() == 5);
    assert("大津波警報"@[0] == '大' && "津波注意報"@[0] == '津');
    assert("大津波警報"@.len() == 5 && "津波警報"@.len() == 4 && "津波注意報"@.len() == 5);
}

/// The grades stand in the order of their gravity.
pub proof fn lemma_graver_grades_come_first(tsunami: Tsunami, is_test: bool, j: int, k: int)
    requires
        !tsunami.cancelled,
        0 <= j < k < fields_in(tsunami_payload(tsunami, is_test)).len(),
    ensures
        ({
            let f = fields_in(tsunami_payload(tsunami, is_test));
            let (first, then) = (f[j].member_text("name"@), f[k].member_text("name"@));
            ||| first == Some("大津波警報"@) && then == Some("津波警報"@)
            ||| first == Some("大津波警報"@) && then == Some("津波注意報"@)
            ||| first == Some("津波警報"@) && then == Some("津波注意報"@)
        }),
{
    lemma_forecast_frame(tsunami, is_test);
    let areas = tsunami.areas@;
    lemma_grade_names();
    lemma_field("大津波警報"@, joined(coasts(areas, "MajorWarning"@), "、"@), false);
    lemma_field("津波警報"@, joined(coasts(areas, "Warning"@), "、"@), false);
    lemma_field("津波注意報"@, joined(coasts(areas, "Watch"@), "、"@), false);
}

proof fn lemma_forecast_frame(tsunami: Tsunami, is_test: bool)
    requires
        !tsunami.cancelled,
    ensures
        ({
            let post = tsunami_payload(tsunami, is_test);
            let areas = tsunami.areas@;
            let grade = gravest(areas);
            &&& has_one_embed(post)
            &&& embed_in(post).member_list("fields"@) == Some(tsunami_fields(areas))
            &&& framed(
                post,
                tsunami_heading(areas, is_test),
                tsunami_words(areas),
                tsunami_color(areas),
                tsunami_sources(tsunami.issue.time@),
            )
            &&& embed_in(post).member("image"@) is None
        }),
{
    let areas = tsunami.areas@;
    lemma_gravest(areas);
    lemma_grade_names();
    lemma_frame(
        tsunami_heading(areas, is_test),
        tsunami_words(areas),
        tsunami_color(areas),
        Some(tsunami_fields(areas)),
        tsunami_sources(tsunami.issue.time@),
        false,
    );
    let grade = gravest(areas);
    if areas.len() == 0 {
        assert(!some_coast(areas, "MajorWarning"@) && !some_coast(areas, "Warning"@)
            && !some_coast(areas, "Watch"@));
        assert(grade.len() == 0);
    }
    assert(crate::intensity::grade_color(grade) == tsunami_color(areas));
    assert(crate::discord::arrives_at_once(areas) == exists|i: int|
        0 <= i < areas.len() && (#[trigger] areas[i]).immediate);
    assert(crate::discord::test_mark(is_test) + "🌊 "@ + grade_text(grade) == tsunami_heading(
        areas,
        is_test,
    ));
    assert(tsunami_payload(tsunami, is_test) == payload_view(
        embed_view(
            tsunami_heading(areas, is_test),
            tsunami_words(areas),
            tsunami_color(areas),
            Some(tsunami_fields(areas)),
            tsunami_sources(tsunami.issue.time@),
            false,
        ),
    ));
}

proof fn lemma_gravest(areas: Seq<TsunamiArea>)
    ensures
        some_coast(areas, "MajorWarning"@) ==> gravest(areas) == "MajorWarning"@,
        !some_coast(areas, "MajorWarning"@) && some_coast(areas, "Warning"@) ==> gravest(areas)
            == "Warning"@,
        !some_coast(areas, "MajorWarning"@) && !some_coast(areas, "Warning"@) && some_coast(
            areas,
            "Watch"@,
        ) ==> gravest(areas) == "Watch"@,
        gravest(areas).len() > 0 ==> some_coast(areas, gravest(areas)),
        areas.len() > 0 ==> some_coast(areas, gravest(areas)),
    decreases areas.len(),
{
    lemma_grade_names();
    if areas.len() == 0 {
        assert(gravest(areas) =~= Seq::empty());
    } else {
        let rest = areas.drop_last();
        let n = rest.len() as int;
        lemma_gravest(rest);
        assert(areas[n] == areas.last());
        assert forall|g: Seq<char>| some_coast(rest, g) implies #[trigger] some_coast(areas, g) by {
            let i = choose|i: int| 0 <= i < rest.len() && (#[trigger] rest[i]).grade@ == g;
            assert(areas[i].grade@ == g);
        }
        assert forall|g: Seq<char>|
            #[trigger] some_coast(areas, g) && areas.last().grade@ != g implies some_coast(
            rest,
            g,
        ) by {
            let i = choose|i: int| 0 <= i < areas.len() && (#[trigger] areas[i]).grade@ == g;
            assert(rest[i].grade@ == g);
        }
        assert(some_coast(areas, areas.last().grade@));
        if areas.len() == 1 {
            assert(areas[0] == areas.last());
            assert(!some_coast(rest, "MajorWarning"@));
            assert(!some_coast(rest, "Warning"@));
            assert(!some_coast(rest, "Watch"@));
        } else {
            let before = gravest(rest);
            assert(some_coast(areas, before));
            assert(grade_rank(before) <= 3);
        }
    }
}

/// How a tsunami forecast is headed: by its gravest grade.
pub open spec fn tsunami_heading(areas: Seq<TsunamiArea>, is_test: bool) -> Seq<char> {
    (if is_test {
        "🧪【テスト通知】"@
    } else {
        ""@
    }) + "🌊 "@ + (if some_coast(areas, "MajorWarning"@) {
        "大津波警報"@
    } else if some_coast(areas, "Warning"@) {
        "津波警報"@
    } else if some_coast(areas, "Watch"@) {
        "津波注意報"@
    } else {
        "津波予報"@
    })
}

/// How a tsunami forecast is coloured: by its gravest grade.
pub open spec fn tsunami_color(areas: Seq<TsunamiArea>) -> int {
    if some_coast(areas, "MajorWarning"@) {
        0x990099
    } else if some_coast(areas, "Warning"@) {
        0xE00000
    } else if some_coast(areas, "Watch"@) {
        0xFFC000
    } else {
        0x3399FF
    }
}

/// What a tsunami forecast says first: to leave the coast if the tsunami may arrive at once
/// somewhere.
pub open spec fn tsunami_words(areas: Seq<TsunamiArea>) -> Seq<char> {
    if exists|i: int| 0 <= i < areas.len() && (#[trigger] areas[i]).immediate {
        "津波予報が発表されています。**直ちに津波来襲のおそれ**があります。沿岸から離れてください。"@
    } else {
        "津波予報が発表されています。沿岸では注意してください。"@
    }
}

/// What a tsunami forecast says last: its source, and when it was issued.
pub open spec fn tsunami_sources(time: Seq<char>) -> Seq<char> {
    if time.len() > 0 {
        "出典: 気象庁 津波予報（P2P地震情報経由）"@ + " ・ 発表 "@ + time
    } else {
        "出典: 気象庁 津波予報（P2P地震情報経由）"@
    }
}

/// A tsunami forecast is headed and coloured by its gravest grade, says whether the tsunami may
/// arrive at once, and where it comes from; one that lifts the forecasts says only that.
pub proof fn lemma_tsunami_is_headed_by_its_gravest_grade(tsunami: Tsunami, is_test: bool)
    ensures
        !tsunami.cancelled ==> framed(
            tsunami_payload(tsunami, is_test),
            tsunami_heading(tsunami.areas@, is_test),
            tsunami_words(tsunami.areas@),
            tsunami_color(tsunami.areas@),
            tsunami_sources(tsunami.issue.time@),
        ),
        tsunami.cancelled ==> framed(
            tsunami_payload(tsunami, is_test),
            (if is_test {
                "🧪【テスト通知】"@
            } else {
                ""@
            }) + "🌊 津波予報 解除"@,
            "津波予報（注意報・警報）はすべて解除されました。"@,
            0x808080,
            "出典: 気象庁 津波予報（P2P地震情報経由）"@,
        ) && embed_in(tsunami_payload(tsunami, is_test)).member("fields"@) is None,
        has_one_embed(tsunami_payload(tsunami, is_test)),
        embed_in(tsunami_payload(tsunami, is_test)).member("image"@) is None,
{
    if tsunami.cancelled {
        lemma_frame(
            (if is_test {
                "🧪【テスト通知】"@
            } else {
                ""@
            }) + "🌊 津波予報 解除"@,
            "津波予報（注意報・警報）はすべて解除されました。"@,
            0x808080,
            None,
            "出典: 気象庁 津波予報（P2P地震情報経由）"@,
            false,
        );
    } else {
        lemma_forecast_frame(tsunami, is_test);
    }
}

/// A coast with one of the three grades is named in the field of its grade.
pub proof fn lemma_a_coast_is_named_under_its_grade(
    tsunami: Tsunami,
    is_test: bool,
    i: int,
    label: Seq<char>,
) -> (value: Seq<char>)
    requires
        !tsunami.cancelled,
        0 <= i < tsunami.areas@.len(),
        ({
            let grade = tsunami.areas@[i].grade@;
            ||| grade == "MajorWarning"@ && label == "大津波警報"@
            ||| grade == "Warning"@ && label == "津波警報"@
            ||| grade == "Watch"@ && label == "津波注意報"@
        }),
    ensures
        says(tsunami_payload(tsunami, is_test), label, value),
        occurs(value, tsunami.areas@[i].name@),
{
    lemma_every_coast_is_named_under_its_grade(tsunami, is_test);
    lemma_grade_names();
    let areas = tsunami.areas@;
    let grade = areas[i].grade@;
    lemma_coasts(areas, grade);
    assert(some_coast(areas, grade));
    let names = coasts(areas, grade);
    let k = choose|k: int| 0 <= k < names.len() && names[k] == areas[i].name@;
    lemma_joined_texts_are_all_there(names, "、"@, k);
    joined(names, "、"@)
}

} // verus!
