use quake_alert::intensity::{
    decide, decide_eew, display_pref, eew_area_scale, eew_max_scale, eew_max_scale_label,
    eew_prefs_at_scale, eew_scale_label, eew_summary, embed_color, format_place, has_tsunami,
    is_known_scale, is_unbounded_at, known_region, marker_rgb, normalize_pref, prefs_at_scale,
    region_of, region_threshold, scale_label, tsunami_grade_color, tsunami_grade_label,
    tsunami_grade_rank, tsunami_label, RegionScales, SCALE_TO_UNBOUNDED,
};
use quake_alert::model::{Earthquake, EewArea, Point};

fn pt(pref: &str, scale: i32) -> Point {
    Point {
        pref: pref.to_string(),
        addr: String::new(),
        is_area: false,
        scale,
    }
}

fn scales(entries: &[(&str, i32)]) -> RegionScales {
    let mut out = RegionScales::new();
    for (name, scale) in entries {
        out.set(name, *scale);
    }
    out
}

/// 関東を 40 に設定した場合の地方下限（他地方は未設定）。
fn kanto40() -> RegionScales {
    scales(&[("関東", 40)])
}

fn quake(max_scale: i32) -> Earthquake {
    Earthquake {
        max_scale,
        ..Default::default()
    }
}

#[test]
fn normalize_and_region() {
    assert_eq!(normalize_pref("東京都"), "東京");
    assert_eq!(normalize_pref("大阪府"), "大阪");
    assert_eq!(normalize_pref("北海道"), "北海道");
    assert_eq!(normalize_pref("東京"), "東京");
    assert_eq!(region_of("東京都"), Some("関東"));
    assert_eq!(region_of("宮城"), Some("東北"));
    assert_eq!(region_of("大阪府"), Some("近畿"));
    assert_eq!(region_of("ハワイ"), None);
}

#[test]
fn kyoto_keeps_the_last_character_of_its_name() {
    assert_eq!(normalize_pref("京都府"), "京都");
    assert_eq!(normalize_pref("京都"), "京都");
    assert_eq!(region_of("京都府"), Some("近畿"));
    assert_eq!(region_of("京都"), Some("近畿"));
    assert_eq!(display_pref("京都"), "京都府");
    assert_eq!(display_pref("京都府"), "京都府");
}

#[test]
fn every_prefecture_lies_in_a_region() {
    let regions = [
        ("北海道", vec!["北海道"]),
        ("東北", vec!["青森県", "岩手県", "宮城県", "秋田県", "山形県", "福島県"]),
        (
            "関東",
            vec!["茨城県", "栃木県", "群馬県", "埼玉県", "千葉県", "東京都", "神奈川県"],
        ),
        (
            "中部",
            vec![
                "新潟県", "富山県", "石川県", "福井県", "山梨県", "長野県", "岐阜県", "静岡県",
                "愛知県",
            ],
        ),
        (
            "近畿",
            vec!["三重県", "滋賀県", "京都府", "大阪府", "兵庫県", "奈良県", "和歌山県"],
        ),
        ("中国", vec!["鳥取県", "島根県", "岡山県", "広島県", "山口県"]),
        ("四国", vec!["徳島県", "香川県", "愛媛県", "高知県"]),
        (
            "九州",
            vec![
                "福岡県", "佐賀県", "長崎県", "熊本県", "大分県", "宮崎県", "鹿児島県", "沖縄県",
            ],
        ),
    ];
    let mut count = 0;
    for (region, prefs) in regions {
        assert!(known_region(region));
        for pref in prefs {
            count += 1;
            assert_eq!(region_of(pref), Some(region), "{pref}");
            let short = normalize_pref(pref);
            assert_eq!(region_of(short), Some(region), "{short}");
            assert_eq!(display_pref(short), pref);
            assert_eq!(display_pref(pref), pref);
        }
    }
    assert_eq!(count, 47);
    assert!(!known_region("関東圏"));
}

#[test]
fn scale46_is_treated_as_5jaku() {
    assert_eq!(scale_label(46), "5弱以上");
    assert_eq!(marker_rgb(46), marker_rgb(45));
    assert_eq!(embed_color(46), embed_color(45));
    assert_ne!(marker_rgb(46), marker_rgb(30));
}

/// 実データに現れる scale の全値（-1 は不明）。
const ALL_SCALES: &[i32] = &[-1, 10, 20, 30, 40, 45, 46, 50, 55, 60, 70];

#[test]
fn color_functions_agree() {
    for &s in ALL_SCALES {
        let (r, g, b) = marker_rgb(s);
        let packed = (u32::from(r) << 16) | (u32::from(g) << 8) | u32::from(b);
        assert_eq!(embed_color(s), packed, "scale={s} で配色が食い違っている");
    }
}

#[test]
fn each_scale_has_a_distinct_color() {
    for &a in ALL_SCALES {
        for &b in ALL_SCALES {
            if a >= b || (a == 45 && b == 46) {
                continue;
            }
            assert_ne!(marker_rgb(a), marker_rgb(b), "scale {a} と {b} が同色");
        }
    }
}

#[test]
fn colors_and_labels_of_every_scale() {
    let expected = [
        (-1, "不明", (176, 176, 176)),
        (0, "不明", (176, 176, 176)),
        (10, "1", (124, 139, 153)),
        (20, "2", (51, 153, 255)),
        (30, "3", (0, 176, 80)),
        (40, "4", (255, 192, 0)),
        (45, "5弱", (255, 136, 0)),
        (46, "5弱以上", (255, 136, 0)),
        (50, "5強", (255, 68, 0)),
        (55, "6弱", (224, 0, 0)),
        (60, "6強", (139, 0, 0)),
        (70, "7", (140, 0, 160)),
        (99, "不明", (140, 0, 160)),
    ];
    for (scale, label, rgb) in expected {
        assert_eq!(scale_label(scale), label);
        assert_eq!(marker_rgb(scale), rgb);
        assert_eq!(is_known_scale(scale), label != "不明");
    }
}

#[test]
fn kanto_shindo4_notifies() {
    let eq = quake(40);
    let points = vec![pt("東京都", 40), pt("大阪府", 30)];
    let d = decide(&eq, &points, &kanto40(), 50);
    assert!(d.notify);
    // 理由文は地方名ではなく観測した都道府県名で示す。
    assert!(d.reason.contains("東京都"), "{}", d.reason);
    assert!(d.reason.contains("最大震度4"), "{}", d.reason);
}

#[test]
fn kanto_shindo3_does_not_notify() {
    let eq = quake(30);
    let points = vec![pt("千葉県", 30)];
    assert!(!decide(&eq, &points, &kanto40(), 50).notify);
}

#[test]
fn other_region_needs_5kyo() {
    let eq = quake(40);
    // 関東以外で震度4のみ → 通知しない（北海道は未設定なので50が下限）
    let points = vec![pt("北海道", 40)];
    assert!(!decide(&eq, &points, &kanto40(), 50).notify);

    // 関東以外で震度5強 → 通知する
    let eq2 = quake(50);
    let points2 = vec![pt("北海道", 50)];
    assert!(decide(&eq2, &points2, &kanto40(), 50).notify);
}

#[test]
fn tohoku_threshold_applies() {
    let eq = quake(40);
    // 東北を40に設定 → 宮城の震度4で通知
    let both = scales(&[("関東", 40), ("東北", 40)]);
    let d = decide(&eq, &[pt("宮城県", 40)], &both, 50);
    assert!(d.notify);
    assert!(d.reason.contains("宮城県"), "{}", d.reason);
    // 東北を未設定にすると同じ震度4では通知しない（フォールバック50）
    assert!(!decide(&eq, &[pt("宮城県", 40)], &kanto40(), 50).notify);
}

#[test]
fn reason_lists_prefs_at_max_scale() {
    let eq = quake(45);
    let tohoku = scales(&[("東北", 40)]);
    // 最大震度5弱(45)を観測したのは青森県・岩手県。宮城県は震度3で対象外。
    let points = vec![
        pt("青森県", 45),
        pt("岩手県", 45),
        pt("岩手県", 40),
        pt("宮城県", 30),
    ];
    let d = decide(&eq, &points, &tohoku, 50);
    assert!(d.notify);
    assert_eq!(d.reason, "青森県・岩手県で最大震度5弱を観測");
}

#[test]
fn the_largest_intensity_decides_without_points() {
    let d = decide(&quake(55), &[], &kanto40(), 50);
    assert!(d.notify);
    assert_eq!(d.reason, "最大震度6弱を観測");
    let d = decide(&quake(45), &[], &kanto40(), 50);
    assert!(!d.notify);
    assert_eq!(d.reason, "");
    // 関東の下限を上げても、全国の最大震度が下限に達していれば通知する。
    let d = decide(&quake(50), &[pt("東京都", 50)], &scales(&[("関東", 60)]), 50);
    assert!(d.notify);
    assert_eq!(d.reason, "最大震度5強を観測");
}

#[test]
fn places_beyond_four_are_summed_up() {
    let names: Vec<String> = ["甲", "乙", "丙", "丁", "戊"].iter().map(|s| s.to_string()).collect();
    assert_eq!(format_place(&names), "甲・乙・丙・丁など");
    assert_eq!(format_place(&names[..4]), "甲・乙・丙・丁");
    assert_eq!(format_place(&[]), "各地");
}

#[test]
fn thresholds_fall_back_to_the_common_one() {
    let mut kanto = kanto40();
    assert_eq!(region_threshold(Some("関東"), &kanto, 50), 40);
    assert_eq!(region_threshold(Some("東北"), &kanto, 50), 50);
    assert_eq!(region_threshold(None, &kanto, 50), 50);
    kanto.set("関東", 30);
    assert_eq!(kanto.get("関東"), Some(30));
    assert_eq!(kanto.get("東北"), None);
}

fn area(pref: &str, scale_to: i32) -> EewArea {
    EewArea {
        pref: pref.to_string(),
        name: String::new(),
        scale_from: scale_to,
        scale_to,
    }
}

#[test]
fn eew_kanto_yosou4_notifies() {
    // 関東(接尾辞なしpref)で予想震度4 → 通知
    let areas = vec![area("神奈川", 40), area("大阪", 30)];
    let d = decide_eew(&areas, &kanto40(), 50);
    assert!(d.notify);
    // 理由文は地方名ではなく、接尾辞を補った都府県名で示す。
    assert_eq!(d.reason, "神奈川県で予想最大震度4");
}

#[test]
fn eew_reason_lists_prefs_at_max_scale() {
    // 複数県が同じ予想最大震度の場合は、その県名を列挙する（地方名にまとめない）。
    let tohoku = scales(&[("東北", 40)]);
    let areas = vec![
        area("青森", 45),
        area("岩手", 45),
        area("岩手", 40),
        area("宮城", 30),
    ];
    let d = decide_eew(&areas, &tohoku, 50);
    assert!(d.notify);
    assert_eq!(d.reason, "青森県・岩手県で予想最大震度5弱");
}

#[test]
fn eew_other_region_needs_5kyo() {
    // 関東外で予想震度4のみ → 通知しない
    assert!(!decide_eew(&[area("北海道", 40)], &kanto40(), 50).notify);
    // 関東外で予想震度5強 → 通知する
    assert!(decide_eew(&[area("北海道", 50)], &kanto40(), 50).notify);
}

/// `scale_to` が「〜程度以上」(99) の地域。第1報はこの形で来る。
fn area_unbounded(pref: &str, scale_from: i32) -> EewArea {
    EewArea {
        pref: pref.to_string(),
        name: String::new(),
        scale_from,
        scale_to: SCALE_TO_UNBOUNDED,
    }
}

#[test]
fn unbounded_scale_uses_lower_bound() {
    let a = area_unbounded("熊本", 45);
    assert_eq!(eew_area_scale(&a), 45);
    assert_eq!(marker_rgb(eew_area_scale(&a)), marker_rgb(45));
    assert_ne!(marker_rgb(eew_area_scale(&a)), marker_rgb(70));
}

#[test]
fn unbounded_scale_is_labeled_as_lower_bound() {
    // 「不明」ではなく下限が分かる表記にする。
    let areas = vec![area_unbounded("熊本", 45), area_unbounded("熊本", 40)];
    assert_eq!(eew_max_scale(&areas), 45);
    assert_eq!(eew_max_scale_label(&areas), "5弱程度以上");
    // 上限が確定している報では「程度以上」を付けない。
    assert_eq!(eew_max_scale_label(&[area("熊本", 45)]), "5弱");
}

#[test]
fn unbounded_scale_respects_region_threshold() {
    // 下限で判定するので、下限がしきい値未満なら通知しない。
    let areas = vec![area_unbounded("熊本", 45)];
    assert!(!decide_eew(&areas, &kanto40(), 50).notify);
    // 下限がしきい値以上なら通知し、理由文も下限表記にする。
    let d = decide_eew(&areas, &kanto40(), 45);
    assert!(d.notify);
    assert_eq!(d.reason, "熊本県で予想最大震度5弱程度以上");
}

#[test]
fn eew_max_scale_picks_highest() {
    let areas = vec![area("山梨", 45), area("神奈川", 40), area("静岡", 40)];
    assert_eq!(eew_max_scale(&areas), 45);
}

#[test]
fn a_warning_without_areas_has_no_forecast() {
    assert_eq!(eew_max_scale(&[]), -1);
    assert_eq!(eew_max_scale_label(&[]), "不明");
    assert_eq!(eew_summary(&[]), "各地で予想最大震度不明");
    assert!(!decide_eew(&[], &kanto40(), -5).notify);
}

#[test]
fn prefectures_at_an_intensity_are_listed_once() {
    let points = vec![pt("岩手県", 40), pt("青森県", 40), pt("岩手県", 40), pt("", 40)];
    assert_eq!(prefs_at_scale(&points, 40), ["岩手県", "青森県"]);
    let areas = vec![area("東京", 40), area("東京都", 40), area("北海道", 40), area("大阪", 30)];
    assert_eq!(eew_prefs_at_scale(&areas, 40), ["東京都", "北海道"]);
    assert!(is_unbounded_at(&[area_unbounded("熊本", 40)], 40));
    assert!(!is_unbounded_at(&[area_unbounded("熊本", 40)], 45));
    assert_eq!(eew_scale_label(60, true), "6強程度以上");
    assert_eq!(eew_scale_label(60, false), "6強");
}

#[test]
fn tsunami_codes_and_grades() {
    let labels = [
        ("None", "なし", false),
        ("NonEffective", "若干の海面変動（被害の心配なし）", true),
        ("Watch", "津波注意報", true),
        ("Warning", "津波警報・大津波警報", true),
        ("Checking", "調査中", true),
        ("Unknown", "不明", false),
        ("", "不明", false),
    ];
    for (code, label, marked) in labels {
        assert_eq!(tsunami_label(code), label);
        assert_eq!(has_tsunami(code), marked);
    }
    let grades = [
        ("MajorWarning", "大津波警報", 3, 0x99_00_99),
        ("Warning", "津波警報", 2, 0xE0_00_00),
        ("Watch", "津波注意報", 1, 0xFF_C0_00),
        ("Unknown", "津波予報", 0, 0x33_99_FF),
    ];
    for (grade, label, rank, color) in grades {
        assert_eq!(tsunami_grade_label(grade), label);
        assert_eq!(tsunami_grade_rank(grade), rank);
        assert_eq!(tsunami_grade_color(grade), color);
    }
}

#[test]
fn eew_summary_describes_forecast_without_threshold() {
    // 基準を下回った続報の差し替え本文。しきい値と無関係に全地域から求める。
    let areas = vec![
        EewArea {
            pref: "熊本".to_string(),
            name: "熊本県熊本".to_string(),
            scale_from: 50,
            scale_to: 50,
        },
        EewArea {
            pref: "熊本".to_string(),
            name: "熊本県球磨".to_string(),
            scale_from: 40,
            scale_to: 40,
        },
    ];
    assert_eq!(eew_summary(&areas), "熊本県で予想最大震度5強");
}
