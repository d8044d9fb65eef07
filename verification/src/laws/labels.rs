//! What is promised of the names and the colors of intensities, of tsunami and of regions, and
//! of what is said of faults.

use vstd::prelude::*;

use crate::config::{Fault, PlaceFault};
use crate::intensity::{
    embed_color, grade_color, grade_rank, grade_text, is_region, known_scale, pref_key,
    region_name, scale_text, tsunami_expected, tsunami_text,
};
use crate::mapgen::whole_view;
use crate::stations::Flaw;
use crate::text::{decimal_text, occurs};

verus! {

/// The intensities that have a name, with their names; every other is called unknown.
pub open spec fn intensity_names() -> Map<i32, Seq<char>> {
    map![
        10i32 => "1"@,
        20i32 => "2"@,
        30i32 => "3"@,
        40i32 => "4"@,
        45i32 => "5弱"@,
        46i32 => "5弱以上"@,
        50i32 => "5強"@,
        55i32 => "6弱"@,
        60i32 => "6強"@,
        70i32 => "7"@,
    ]
}

/// An intensity is known exactly if it has a name, and goes by it.
pub proof fn lemma_what_intensities_are_called(scale: i32)
    ensures
        known_scale(scale) <==> intensity_names().dom().contains(scale),
        known_scale(scale) ==> scale_text(scale) == intensity_names()[scale],
        !known_scale(scale) ==> scale_text(scale) == "不明"@,
{
}

/// The colors go by the intensity, and above the one of 6 they do so for every number; what has
/// no color of its own is gray.
pub proof fn lemma_which_colors_intensities_have(scale: i32, color: u32)
    requires
        call_ensures(embed_color, (scale,), color),
    ensures
        scale >= 70 ==> color == 0x8c_00_a0,
        60 <= scale < 70 ==> color == 0x8b_00_00,
        scale == 55 ==> color == 0xe0_00_00,
        scale == 50 ==> color == 0xff_44_00,
        scale == 45 || scale == 46 ==> color == 0xff_88_00,
        scale == 40 ==> color == 0xff_c0_00,
        scale == 30 ==> color == 0x00_b0_50,
        scale == 20 ==> color == 0x33_99_ff,
        scale == 10 ==> color == 0x7c_8b_99,
        scale < 60 && !known_scale(scale) ==> color == 0xb0_b0_b0,
{
}

/// What a report says of tsunami is called by its code; a tsunami is expected for every known
/// code but that for none, and what is not known is called so.
pub proof fn lemma_what_is_said_of_tsunami(code: Seq<char>)
    ensures
        tsunami_text("None"@) == "なし"@,
        tsunami_text("NonEffective"@) == "若干の海面変動（被害の心配なし）"@,
        tsunami_text("Watch"@) == "津波注意報"@,
        tsunami_text("Warning"@) == "津波警報・大津波警報"@,
        tsunami_text("Checking"@) == "調査中"@,
        tsunami_expected(code) <==> tsunami_text(code) != "なし"@ && tsunami_text(code) != "不明"@,
{
    reveal_strlit("None");
    reveal_strlit("NonEffective");
    reveal_strlit("Watch");
    reveal_strlit("Warning");
    reveal_strlit("Checking");
    reveal_strlit("なし");
    reveal_strlit("不明");
    reveal_strlit("若干の海面変動（被害の心配なし）");
    reveal_strlit("津波注意報");
    reveal_strlit("津波警報・大津波警報");
    reveal_strlit("調査中");
    assert("None"@[0] == 'N' && "NonEffective"@.len() == 12 && "None"@.len() == 4);
    assert("Watch"@.len() == 5 && "Warning"@.len() == 7 && "Checking"@.len() == 8);
    assert("なし"@.len() == 2 && "不明"@.len() == 2 && "なし"@[0] == 'な' && "不明"@[0] == '不');
    assert("若干の海面変動（被害の心配なし）"@.len() > 2 && "津波注意報"@.len() > 2);
    assert("津波警報・大津波警報"@.len() > 2 && "調査中"@.len() > 2);
}

/// A grade of tsunami has its name, its rank and its color; every other one ranks below the
/// three.
pub proof fn lemma_what_grades_are_called(grade: Seq<char>)
    ensures
        grade == "MajorWarning"@ ==> grade_text(grade) == "大津波警報"@ && grade_rank(grade) == 3
            && grade_color(grade) == 0x99_00_99,
        grade == "Warning"@ ==> grade_text(grade) == "津波警報"@ && grade_rank(grade) == 2
            && grade_color(grade) == 0xe0_00_00,
        grade == "Watch"@ ==> grade_text(grade) == "津波注意報"@ && grade_rank(grade) == 1
            && grade_color(grade) == 0xff_c0_00,
        grade != "MajorWarning"@ && grade != "Warning"@ && grade != "Watch"@ ==> grade_text(grade)
            == "津波予報"@ && grade_rank(grade) == 0 && grade_color(grade) == 0x33_99_ff,
{
    reveal_strlit("MajorWarning");
    reveal_strlit("Warning");
    reveal_strlit("Watch");
    assert("MajorWarning"@.len() == 12 && "Warning"@.len() == 7 && "Watch"@.len() == 5);
}

/// A place lies in one of the regions that can be set, or in none; its region does not depend
/// on the suffix of its name.
pub proof fn lemma_regions_can_be_set(pref: Seq<char>, suffix: char)
    requires
        suffix == '都' || suffix == '府' || suffix == '県',
    ensures
        region_name(pref) matches Some(region) ==> is_region(region),
        pref.push(suffix) != "京都"@ ==> region_name(pref_key(pref.push(suffix))) == region_name(
            pref,
        ),
{
    assert(pref.push(suffix).drop_last() =~= pref);
}

/// Without a place to show, the view is a point at zero degrees.
pub proof fn lemma_what_a_view_of_nothing_is()
    ensures
        ({
            let view = whole_view(None, Seq::empty());
            &&& view.lat_min.bits == 0 && view.lat_max.bits == 0
            &&& view.lon_min.bits == 0 && view.lon_max.bits == 0
        }),
{
}

proof fn lemma_stands_in(before: Seq<char>, part: Seq<char>, after: Seq<char>)
    ensures
        occurs(before + part + after, part),
{
    let whole = before + part + after;
    let i = before.len() as int;
    assert(whole.subrange(i, i + part.len()) =~= part);
}

/// What is said of a fault in the settings names the webhook that it is in, and what is at
/// fault there: the variable, the region, or the position of the place.
pub proof fn lemma_faults_are_named(
    webhook: Seq<char>,
    what: Seq<char>,
    position: nat,
    fault: PlaceFault,
)
    ensures
        occurs(Fault::NoVariable(webhook).message(), webhook),
        occurs(Fault::Unset(webhook, what).message(), webhook),
        occurs(Fault::Unset(webhook, what).message(), what),
        occurs(Fault::UnknownRegion(webhook, what).message(), webhook),
        occurs(Fault::UnknownRegion(webhook, what).message(), what),
        occurs(Fault::BadPlace(webhook, position, fault).message(), webhook),
        occurs(Fault::BadPlace(webhook, position, fault).message(), decimal_text(position)),
{
    let none = Seq::<char>::empty();
    let head = "webhooks."@;
    lemma_stands_in(head, webhook, ".webhook_url_envは必須です"@);
    let unset = "が参照する環境変数"@ + what + "が未設定または空です"@;
    lemma_stands_in(head, webhook, unset);
    assert(Fault::Unset(webhook, what).message() =~= head + webhook + unset);
    lemma_stands_in(
        head + webhook + "が参照する環境変数"@,
        what,
        "が未設定または空です"@,
    );
    let unknown = ".region_min_scalesに不明な地方があります: "@;
    lemma_stands_in(head, webhook, unknown + what);
    assert(Fault::UnknownRegion(webhook, what).message() =~= head + webhook + (unknown + what));
    lemma_stands_in(head + webhook + unknown, what, none);
    assert(Fault::UnknownRegion(webhook, what).message() =~= head + webhook + unknown + what
        + none);
    let bad = ".watched_pointsが不正です: "@;
    let tail = match fault {
        PlaceFault::Missing => "番目: prefとnameは必須です"@,
        PlaceFault::Malformed => "番目: 各項目は改行なしの100文字以内で指定してください"@,
    };
    let text = Fault::BadPlace(webhook, position, fault).message();
    lemma_stands_in(head, webhook, bad + (decimal_text(position) + tail));
    assert(text =~= head + webhook + (bad + (decimal_text(position) + tail)));
    lemma_stands_in(head + webhook + bad, decimal_text(position), tail);
    assert(text =~= head + webhook + bad + decimal_text(position) + tail);
}

/// What is said of a station that cannot be listed names what is at fault: the key, or the
/// station with its prefecture.
pub proof fn lemma_flaws_are_named(key: Seq<char>, code: nat)
    ensures
        occurs(Flaw::Missing(key).message(), key),
        occurs(Flaw::NotInteger(key).message(), key),
        occurs(Flaw::NotNumber(key).message(), key),
        occurs(Flaw::BadCoord(key).message(), key),
        occurs(Flaw::Duplicate(code as int, key).message(), key),
        occurs(Flaw::Duplicate(code as int, key).message(), decimal_text(code)),
{
    let none = Seq::<char>::empty();
    lemma_stands_in("観測点に "@, key, " がありません"@);
    lemma_stands_in(none, key, " が整数ではありません"@);
    assert(Flaw::NotInteger(key).message() =~= none + key + " が整数ではありません"@);
    lemma_stands_in(none, key, " が数値ではありません"@);
    assert(Flaw::NotNumber(key).message() =~= none + key + " が数値ではありません"@);
    lemma_stands_in("不正な座標: "@, key, none);
    assert(Flaw::BadCoord(key).message() =~= "不正な座標: "@ + key + none);
    let twice = "都道府県・観測点名の重複: "@;
    let text = Flaw::Duplicate(code as int, key).message();
    lemma_stands_in(twice + decimal_text(code) + " "@, key, none);
    assert(text =~= twice + decimal_text(code) + " "@ + key + none);
    lemma_stands_in(twice, decimal_text(code), " "@ + key);
    assert(text =~= twice + decimal_text(code) + (" "@ + key));
}

} // verus!
