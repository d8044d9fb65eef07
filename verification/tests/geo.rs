use quake_alert::geo::{
    eew_areas_to_markers, observation_point_coord, points_to_markers, pref_coord,
    search_observation_stations, station_rows, Marker, ObservationStation, Score, SearchError,
    PREF_COORDS,
};
use quake_alert::model::{can_be_drawn, EewArea, Hypocenter, Point};
use quake_alert::reading::{Measure, Real};
use quake_alert::stations::PREFS;

fn degrees(value: f64) -> Real {
    Real { bits: value.to_bits() }
}

fn station(pref: &str, name: &str, latitude: f64, longitude: f64) -> ObservationStation {
    ObservationStation {
        pref: pref.to_string(),
        name: name.to_string(),
        latitude: degrees(latitude),
        longitude: degrees(longitude),
    }
}

fn stations() -> Vec<ObservationStation> {
    vec![
        station("北海道", "石狩市花川", 43.17, 141.32),
        station("北海道", "新篠津村第４７線", 43.23, 141.65),
        station("北海道", "石狩市厚田", 43.40, 141.43),
        station("青森県", "八戸市湊町", 40.53, 141.53),
        station("東京都", "東京千代田区大手町", 35.69, 139.76),
        station("東京都", "東京千代田区麹町", 35.69, 139.74),
        station("東京都", "東京千代田区富士見", 35.70, 139.75),
        station("東京都", "東京中央区勝どき", 35.66, 139.78),
        station("東京都", "東京港区海岸", 35.65, 139.76),
        station("東京都", "東京新宿区西新宿", 35.69, 139.69),
    ]
}

fn coord(pref: &str, addr: &str) -> Option<(Real, Real)> {
    observation_point_coord(&stations(), pref, addr)
}

fn markers(points: &[Point]) -> Vec<Marker> {
    points_to_markers(points, &stations())
}

fn pt(pref: &str, scale: i32) -> Point {
    pt_addr(pref, "", scale)
}

fn pt_addr(pref: &str, addr: &str, scale: i32) -> Point {
    Point {
        pref: pref.to_string(),
        addr: addr.to_string(),
        is_area: false,
        scale,
    }
}

fn place(m: &Marker) -> (Real, Real) {
    (m.latitude, m.longitude)
}

#[test]
fn coord_lookup() {
    assert!(pref_coord("宮城県").is_some());
    assert!(pref_coord("存在しない県").is_none());
}

#[test]
fn prefectures_are_drawn_where_they_are() {
    assert_eq!(pref_coord("北海道"), Some((degrees(43.0642), degrees(141.3469))));
    assert_eq!(pref_coord("東京都"), Some((degrees(35.6895), degrees(139.6917))));
    assert_eq!(pref_coord("沖縄県"), Some((degrees(26.2124), degrees(127.6809))));
    assert_eq!(pref_coord("東京"), None);
    for (i, (name, latitude, longitude)) in PREF_COORDS.iter().enumerate() {
        assert_eq!(*name, PREFS[i]);
        let (lat, lon) = (f64::from_bits(*latitude), f64::from_bits(*longitude));
        assert!((26.0..44.0).contains(&lat), "{name}");
        assert!((127.0..142.0).contains(&lon), "{name}");
    }
}

#[test]
fn observation_point_lookup() {
    assert!(coord("青森県", "八戸市湊町").is_some());
    assert!(coord("青森県", "存在しない観測点").is_none());
}

#[test]
fn expanded_stations_include_local_government_and_nied() {
    assert_eq!(
        coord("北海道", "新篠津村第４７線"),
        Some((degrees(43.23), degrees(141.65)))
    );
    assert_eq!(
        coord("北海道", "石狩市厚田"),
        Some((degrees(43.40), degrees(141.43)))
    );
    let markers = markers(&[
        pt_addr("北海道", "新篠津村第４７線", 30),
        pt_addr("北海道", "石狩市厚田", 40),
    ]);
    let marker = |latitude, longitude, scale| Marker {
        latitude: degrees(latitude),
        longitude: degrees(longitude),
        scale,
    };
    assert_eq!(
        markers,
        vec![marker(43.23, 141.65, 30), marker(43.40, 141.43, 40)]
    );
}

#[test]
fn bundled_coordinate_uses_public_json_value() {
    assert_eq!(
        coord("北海道", "石狩市花川"),
        Some((degrees(43.17), degrees(141.32)))
    );
}

#[test]
fn station_lookup_requires_matching_prefecture() {
    assert_eq!(coord("青森", "八戸市湊町"), coord("青森県", "八戸市湊町"));
    assert!(coord("岩手県", "八戸市湊町").is_none());
    assert!(coord("", "八戸市湊町").is_none());
    let markers = markers(&[pt_addr("岩手県", "八戸市湊町", 40)]);
    assert_eq!(place(&markers[0]), pref_coord("岩手県").unwrap());
}

#[test]
fn the_last_of_equal_stations_counts() {
    let list = vec![
        station("青森県", "八戸市湊町", 1.0, 1.0),
        station("青森", "八戸市湊町", 2.0, 2.0),
    ];
    assert_eq!(
        observation_point_coord(&list, "青森県", "八戸市湊町"),
        Some((degrees(2.0), degrees(2.0)))
    );
}

#[test]
fn station_search_returns_source_names_for_partial_region() {
    let stations = stations();
    let matches = search_observation_stations(&stations, "東京都千代田区", Some(3)).unwrap();
    assert_eq!(matches.len(), 3);
    assert_eq!(matches[0].station.pref, "東京都");
    assert!(matches
        .iter()
        .all(|matched| matched.station.name.contains("東京千代田区")));
    assert!(value(&matches[0].score) >= value(&matches[1].score));
}

fn value(score: &Score) -> f64 {
    f64::from(score.low) / 100.0
        + f64::from(score.span) / 100.0 * score.part as f64 / score.whole as f64
}

#[test]
fn station_search_normalizes_whitespace_and_rejects_empty_query() {
    let stations = stations();
    let search = |query, limit| search_observation_stations(&stations, query, limit);
    let matches = search("東京　千代田区", Some(1)).unwrap();
    assert_eq!(matches[0].station.name, "東京千代田区麹町");
    assert!(search(" ", Some(5)).is_err());
    assert!(search("東京", Some(0)).is_err());
    assert!(search("東京", None).unwrap().len() > 5);
}

#[test]
fn a_search_repeats_no_station_and_a_limit_keeps_the_first() {
    let mut list = stations();
    let found = |list: &[ObservationStation], limit: Option<usize>| -> Vec<String> {
        search_observation_stations(list, "東京", limit)
            .unwrap()
            .iter()
            .map(|m| m.station.name.clone())
            .collect()
    };
    let all = found(&list, None);
    assert_eq!(all.len(), 6);
    for (i, name) in all.iter().enumerate() {
        assert!(!all[i + 1..].contains(name));
    }
    for limit in 1..=8 {
        assert_eq!(found(&list, Some(limit)), all[..limit.min(6)].to_vec());
    }
    // 一覧に二度あれば二度まで。
    list.push(station("東京都", "東京港区海岸", 35.65, 139.76));
    let twice = found(&list, None);
    assert_eq!(twice.len(), 7);
    assert_eq!(twice.iter().filter(|name| *name == "東京港区海岸").count(), 2);
}

#[test]
fn search_scores_by_what_matches() {
    let list = vec![
        station("甲県", "甲県ABC", 0.0, 0.0),
        station("甲県", "ＡＢＣ", 0.0, 0.0),
        station("乙県", "xabcx", 0.0, 0.0),
        station("甲県", "丙", 0.0, 0.0),
    ];
    let search = |query: &str| -> Vec<(String, f64)> {
        search_observation_stations(&list, query, None)
            .unwrap()
            .iter()
            .map(|m| (m.station.name.clone(), value(&m.score)))
            .collect()
    };
    // 全角・大文字・区切り記号の違いは吸収する。
    assert_eq!(
        search("a-b_C"),
        vec![
            ("ＡＢＣ".to_string(), 1.0),
            ("xabcx".to_string(), 0.70 + 0.30 * 3.0 / 5.0),
            ("甲県ABC".to_string(), 0.70 + 0.30 * 3.0 / 5.0),
        ]
    );
    // 都道府県名そのもの、次に都道府県と名前をつなげたものの一部。
    assert_eq!(
        search("甲県"),
        vec![
            ("甲県ABC".to_string(), 0.70 + 0.30 * 2.0 / 5.0),
            ("丙".to_string(), 0.65),
            ("ＡＢＣ".to_string(), 0.65),
        ]
    );
    assert_eq!(
        search("県丙"),
        vec![("丙".to_string(), 0.50 + 0.15 * 2.0 / 3.0)]
    );
    assert!(search("丁").is_empty());
    assert_eq!(
        search_observation_stations(&list, "東京", Some(0)).unwrap_err(),
        SearchError::ZeroLimit
    );
    let empty = search_observation_stations(&list, "・―", None).unwrap_err();
    assert_eq!(empty, SearchError::EmptyQuery);
    assert_eq!(empty.message(), "検索語を1文字以上で指定してください");
    assert_eq!(
        SearchError::ZeroLimit.message(),
        "limitは1以上で指定してください"
    );
}

#[test]
fn area_named_like_a_station_is_still_not_plotted_as_a_station() {
    // 551 の `isArea=true` は区域名であり、文字列が偶然観測点名と同じでも
    // 観測点の座標へ誤って置かない。
    let area = Point {
        pref: "青森県".to_string(),
        addr: "八戸市湊町".to_string(),
        is_area: true,
        scale: 40,
    };
    let markers = markers(&[area]);
    assert_eq!(markers.len(), 1);
    assert_eq!(place(&markers[0]), pref_coord("青森県").unwrap());
}

#[test]
fn markers_use_observation_point_coord_when_addr_matches() {
    // addr が観測点座標テーブルに一致する場合は、県代表座標ではなく
    // その観測点の公開座標を個別マーカーとして使う。
    let points = vec![pt_addr("青森県", "八戸市湊町", 40)];
    let markers = markers(&points);
    assert_eq!(markers.len(), 1);
    let station_coord = coord("青森県", "八戸市湊町").unwrap();
    assert_eq!(place(&markers[0]), station_coord);
    assert_ne!(place(&markers[0]), pref_coord("青森県").unwrap());
    assert_eq!(markers[0].scale, 40);
}

#[test]
fn markers_fall_back_to_pref_when_addr_unmatched() {
    // 震度速報などの地域名（addr）は座標テーブルに無いため、県代表座標に集約される。
    let points = vec![
        pt_addr("宮城県", "宮城県北部", 45),
        pt_addr("宮城県", "宮城県南部", 30),
    ];
    let markers = markers(&points);
    assert_eq!(markers.len(), 1);
    assert_eq!(place(&markers[0]), pref_coord("宮城県").unwrap());
    assert_eq!(markers[0].scale, 45); // 最大震度を採用
}

#[test]
fn markers_take_max_scale_per_pref() {
    let points = vec![pt("宮城県", 40), pt("宮城県", 45), pt("福島県", 30)];
    let mut markers = markers(&points);
    // 県の出現順は不定なので震度で整列して検証する。
    markers.sort_by_key(|m| m.scale);
    assert_eq!(markers.len(), 2);
    assert_eq!(markers[0].scale, 30); // 福島県
    assert_eq!(markers[1].scale, 45); // 宮城県（最大震度を採用）
}

#[test]
fn markers_skip_unknown_pref_and_invalid_scale() {
    let points = vec![pt("ハワイ", 50), pt("宮城県", -1)];
    assert!(markers(&points).is_empty());
}

fn area(pref: &str, name: &str, scale_to: i32) -> EewArea {
    EewArea {
        pref: pref.to_string(),
        name: name.to_string(),
        scale_from: scale_to,
        scale_to,
    }
}

#[test]
fn eew_markers_fall_back_to_pref_representative_coord() {
    // 556 の地域名（例: "神奈川県西部"）は市区町村単位ではないため、
    // 通常は観測点座標テーブルに一致せず県代表座標に集約される。
    let areas = vec![
        area("神奈川", "神奈川県西部", 45),
        area("神奈川", "神奈川県東部", 40),
    ];
    let markers = eew_areas_to_markers(&areas);
    assert_eq!(markers.len(), 1);
    assert_eq!(place(&markers[0]), pref_coord("神奈川県").unwrap());
    assert_eq!(markers[0].scale, 45); // 最大予想震度を採用
}

#[test]
fn eew_markers_take_max_scale_per_pref() {
    let areas = vec![
        area("神奈川", "神奈川県西部", 40),
        area("大阪", "大阪府北部", 30),
    ];
    let mut markers = eew_areas_to_markers(&areas);
    markers.sort_by_key(|m| m.scale);
    assert_eq!(markers.len(), 2);
    assert_eq!(markers[0].scale, 30);
    assert_eq!(markers[1].scale, 40);
}

#[test]
fn eew_markers_use_lower_bound_for_unbounded_scale() {
    // scale_to=99（〜程度以上）は下限でプロットする。99 のままだと
    // 震度7より濃い色になり、実際の予想（5弱程度以上）と食い違う。
    let areas = vec![EewArea {
        pref: "熊本".to_string(),
        name: "熊本県熊本".to_string(),
        scale_from: 45,
        scale_to: 99,
    }];
    let markers = eew_areas_to_markers(&areas);
    assert_eq!(markers.len(), 1);
    assert_eq!(markers[0].scale, 45);
}

#[test]
fn eew_markers_skip_invalid_scale() {
    let areas = vec![area("神奈川", "神奈川県西部", -1)];
    assert!(eew_areas_to_markers(&areas).is_empty());
}

#[test]
fn eew_markers_skip_shindo0() {
    // 震度0（揺れを感じない）は描いても情報にならないので除外する。
    let areas = vec![area("神奈川", "神奈川県西部", 0)];
    assert!(eew_areas_to_markers(&areas).is_empty());
    // 震度1以上は描く。
    assert_eq!(
        eew_areas_to_markers(&[area("神奈川", "神奈川県西部", 10)]).len(),
        1
    );
}

#[test]
fn station_rows_are_read_line_by_line() {
    let rows = station_rows("# 見出し\n北海道\t甲\t43.1\t141.2\r\n青森県\t乙\t40\t141\n").unwrap();
    assert_eq!(rows.len(), 2);
    assert_eq!(rows[0].pref, "北海道");
    assert_eq!(rows[0].longitude, "141.2");
    assert_eq!(rows[1].name, "乙");
    assert_eq!(rows[1].latitude, "40");
    assert!(station_rows("").unwrap().is_empty());
    assert!(station_rows("北海道\t甲\t43.1\n").is_none());
    assert!(station_rows("\n北海道\t甲\t43.1\t1\n").is_none());
    // 改行の無い最後の行に残る復帰文字は取り除かない。
    let rows = station_rows("北海道\t甲\t43.1\t1\r").unwrap();
    assert_eq!(rows[0].longitude, "1\r");
}

#[test]
fn coordinates_that_can_be_drawn() {
    let ok = |lat: f64, lon: f64| can_be_drawn(degrees(lat), degrees(lon));
    assert!(ok(35.0, 140.0));
    assert!(ok(-90.0, 180.0));
    assert!(ok(0.0, 140.0));
    assert!(!ok(0.0, 0.0));
    assert!(!ok(-0.0, 0.0));
    assert!(!ok(-200.0, -200.0));
    assert!(!ok(90.1, 0.0));
    assert!(!ok(f64::NAN, 140.0));
    assert!(!ok(35.0, f64::INFINITY));
    let mut hypocenter = Hypocenter::default();
    assert!(!hypocenter.has_valid_coords());
    hypocenter.latitude = degrees(35.0);
    assert!(hypocenter.has_valid_coords());
    hypocenter.depth = Measure {
        value: degrees(1.0),
        shown: "1".to_string(),
    };
    assert!(hypocenter.has_valid_coords());
}

#[test]
fn readings_compare_as_their_numbers_do() {
    let values = [
        f64::NEG_INFINITY,
        -200.0,
        -1.5,
        -0.0,
        0.0,
        f64::MIN_POSITIVE,
        1.5,
        90.0,
        f64::INFINITY,
        f64::NAN,
    ];
    for a in values {
        assert_eq!(degrees(a).is_nan(), a.is_nan());
        assert_eq!(degrees(a).is_zero(), a == 0.0);
        assert_eq!(degrees(a).is_negative(), a < 0.0);
        assert_eq!(degrees(a).is_within(degrees(90.0)), (-90.0..=90.0).contains(&a));
        for b in values {
            assert_eq!(degrees(a).le(degrees(b)), a <= b, "{a} {b}");
            let low = f64::from_bits(degrees(a).min(degrees(b)).bits);
            let high = f64::from_bits(degrees(a).max(degrees(b)).bits);
            assert!(low == a.min(b) || (low.is_nan() && a.min(b).is_nan()));
            assert!(high == a.max(b) || (high.is_nan() && a.max(b).is_nan()));
        }
    }
}
