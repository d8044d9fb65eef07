use quake_alert::config::WatchedPoint;
use quake_alert::discord::{
    build_eew_payload, build_payload, build_tsunami_payload, escape_markdown, fmt_depth,
    fmt_intensity_groups, fmt_magnitude, fmt_points, highlight_watched_eew,
    highlight_watched_quake, prepend_watched_field, watched_line, MAX_NAMES_PER_SCALE,
};
use quake_alert::model::{
    Earthquake, Eew, EewArea, EewEarthquake, EewIssue, Hypocenter, JmaQuake, Point, QuakeIssue,
    Tsunami, TsunamiArea, TsunamiIssue,
};
use quake_alert::reading::{Measure, Real};
use serde_json::Value;

fn parse(text: &str) -> Value {
    serde_json::from_str(text).unwrap()
}

fn watched(pref: &str, name: &str, label: &str) -> WatchedPoint {
    WatchedPoint {
        pref: pref.into(),
        name: name.into(),
        label: label.into(),
    }
}

fn measure(value: f64, shown: &str) -> Measure {
    Measure {
        value: Real { bits: value.to_bits() },
        shown: shown.to_string(),
    }
}

fn pt(pref: &str, addr: &str, scale: i32) -> Point {
    Point {
        pref: pref.to_string(),
        addr: addr.to_string(),
        is_area: false,
        scale,
    }
}

fn quake(points: Vec<Point>) -> JmaQuake {
    JmaQuake {
        code: 551,
        issue: QuakeIssue { issue_type: String::new() },
        earthquake: Earthquake::default(),
        points,
    }
}

fn area(pref: &str, name: &str, scale_from: i32, scale_to: i32) -> EewArea {
    EewArea {
        pref: pref.to_string(),
        name: name.to_string(),
        scale_from,
        scale_to,
    }
}

fn eew(areas: Vec<EewArea>) -> Eew {
    Eew {
        code: 556,
        cancelled: false,
        issue: EewIssue {
            event_id: String::new(),
            serial: String::new(),
            time: String::new(),
        },
        earthquake: EewEarthquake { hypocenter: Hypocenter::default() },
        areas,
    }
}

#[test]
fn watched_quake_matches_exact_location_and_updates_payload() {
    let mut quake = quake(vec![
        pt("東京都", "東京都23区", 30),
        pt("東京都", "東京都23区", 40),
        pt("東京都", "不明地点", -1),
    ]);
    let watched = vec![
        watched("東京", "東京都23区", "自宅周辺"),
        watched("千葉県", "東京都23区", "同名でも別の県"),
        watched("東京都", "東京都23", "部分一致しない"),
        watched("東京都", "不明地点", "不明"),
    ];
    let base = build_payload(&quake, "通知理由", false, false);
    let mut payload = base.clone();
    highlight_watched_quake(&mut payload, &quake, &watched);
    assert_eq!(
        payload["embeds"][0]["fields"][0]["name"],
        "📍 登録地点の震度"
    );
    assert_eq!(
        payload["embeds"][0]["fields"][0]["value"],
        "**自宅周辺（東京・東京都23区）：震度4**"
    );
    let mut unchanged = base.clone();
    highlight_watched_quake(&mut unchanged, &quake, &[]);
    assert_eq!(unchanged, base);
    highlight_watched_quake(&mut unchanged, &quake, &watched[1..]);
    assert_eq!(unchanged, base);
    quake.points[1].scale = 45;
    let mut revised = base;
    highlight_watched_quake(&mut revised, &quake, &watched);
    assert_ne!(payload, revised);
}

#[test]
fn watched_eew_preserves_forecast_range_and_unbounded_scale() {
    let mut eew = eew(vec![
        area("東京", "東京都23区", 40, 50),
        area("神奈川", "神奈川県東部", 45, 99),
    ]);
    let watched = vec![
        watched("東京都", "東京都23区", "自宅周辺"),
        watched("神奈川県", "神奈川県東部", "職場周辺"),
    ];
    let mut payload = build_eew_payload(&eew, "", false, false);
    highlight_watched_eew(&mut payload, &eew, &watched);
    let field = &payload["embeds"][0]["fields"][0];
    assert_eq!(field["name"], "📍 登録地点の予想震度");
    let value = field["value"].as_str().unwrap();
    assert!(value.contains("震度4〜5強"));
    assert!(value.contains("震度5弱程度以上"));
    eew.cancelled = true;
    let original = build_eew_payload(&eew, "", false, false);
    let mut cancelled = original.clone();
    highlight_watched_eew(&mut cancelled, &eew, &watched);
    assert_eq!(cancelled, original);
}

#[test]
fn watched_eew_takes_the_forecast_that_counts_most() {
    let eew = eew(vec![
        area("東京", "東京都23区", 60, 60),
        area("東京", "東京都23区", 45, 99),
        area("千葉", "千葉県北西部", 30, 50),
        area("千葉", "千葉県北西部", 45, 50),
        area("埼玉", "埼玉県南部", -1, 45),
    ]);
    let mut payload = build_eew_payload(&eew, "", false, false);
    highlight_watched_eew(
        &mut payload,
        &eew,
        &[
            watched("東京", "東京都23区", ""),
            watched("千葉", "千葉県北西部", ""),
            watched("埼玉", "埼玉県南部", ""),
        ],
    );
    assert_eq!(
        payload["embeds"][0]["fields"][0]["value"],
        "**東京都23区（東京）：震度5弱程度以上**\n\
         **千葉県北西部（千葉）：震度5弱〜5強**\n\
         **埼玉県南部（埼玉）：震度5弱**"
    );
    assert_eq!(payload["embeds"][0]["fields"].as_array().unwrap().len(), 6);
}

#[test]
fn many_watched_points_fit_field_limit() {
    let mut payload = parse(r#"{"embeds":[{"fields":[]}]}"#);
    let lines: Vec<String> = (0..100)
        .map(|i| {
            watched_line(
                &watched("東京都", "東京都23区", &format!("地点{i}🏠")),
                "5強",
            )
        })
        .collect();
    prepend_watched_field(&mut payload, "📍 登録地点の震度", &lines);
    let value = payload["embeds"][0]["fields"][0]["value"].as_str().unwrap();
    assert!(value.encode_utf16().count() <= 1024);
    assert!(value.contains("地点0"));
    assert!(value.ends_with("地点（表示上限）"));
    assert!(watched_line(&watched("東京都", "東京都23区", "*自宅*"), "4").contains("\\*自宅\\*"));
}

#[test]
fn a_single_overlong_line_is_only_counted() {
    let mut payload = parse(r#"{"embeds":[{"fields":[{"name":"x"}]}]}"#);
    prepend_watched_field(&mut payload, "題", &["あ".repeat(950)]);
    let fields = payload["embeds"][0]["fields"].as_array().unwrap();
    assert_eq!(fields[0]["value"], "\nほか1地点（表示上限）");
    assert_eq!(fields[0]["inline"], false);
    assert_eq!(fields[1]["name"], "x");
    // ちょうど収まる長さなら省かれない。
    let mut payload = parse(r#"{"embeds":[{"fields":[]}]}"#);
    prepend_watched_field(&mut payload, "題", &["あ".repeat(949)]);
    assert_eq!(
        payload["embeds"][0]["fields"][0]["value"],
        Value::from("あ".repeat(949))
    );
}

#[test]
fn an_embed_without_a_list_of_fields_gets_none() {
    let mut payload = parse(r#"{"embeds":[null]}"#);
    prepend_watched_field(&mut payload, "題", &["行".to_string()]);
    assert_eq!(payload, parse(r#"{"embeds":[{"fields":null}]}"#));
    let mut payload = parse(r#"{"embeds":[{"fields":"x"}]}"#);
    prepend_watched_field(&mut payload, "題", &["行".to_string()]);
    assert_eq!(payload, parse(r#"{"embeds":[{"fields":"x"}]}"#));
    // 行が無ければ payload の形を問わない。
    let mut payload = parse("3");
    prepend_watched_field(&mut payload, "題", &[]);
    assert_eq!(payload, parse("3"));
}

#[test]
fn markdown_is_escaped_character_by_character() {
    assert_eq!(escape_markdown("a*b_c"), "a\\*b\\_c");
    assert_eq!(
        escape_markdown("\\`*_~|>[]()#"),
        "\\\\\\`\\*\\_\\~\\|\\>\\[\\]\\(\\)\\#"
    );
    assert_eq!(escape_markdown("震源"), "震源");
    // エスケープしても別の文字列は別のまま。
    assert_ne!(escape_markdown("\\*"), escape_markdown("*"));
}

#[test]
fn points_grouped_by_scale_desc() {
    let points = vec![
        pt("宮城県", "宮城県北部", 45),
        pt("福島県", "福島県中通り", 40),
        pt("宮城県", "宮城県北部", 45), // 重複は畳む
        pt("岩手県", "岩手県沿岸南部", 40),
    ];
    let text = fmt_points(&points).expect("観測点があるので Some");
    assert_eq!(text, "5弱: 宮城県北部\n4: 福島県中通り、岩手県沿岸南部");
}

#[test]
fn points_falls_back_to_pref_when_addr_empty() {
    let points = vec![pt("青森県", "", 40), pt("岩手県", "", 40)];
    let text = fmt_points(&points).expect("観測点があるので Some");
    assert_eq!(text, "4: 青森県、岩手県");
}

#[test]
fn points_empty_returns_none() {
    assert!(fmt_points(&[]).is_none());
    // 震度不明(-1)や地点名なしは対象外。
    assert!(fmt_points(&[pt("", "", 45), pt("宮城県", "宮城県北部", -1)]).is_none());
}

#[test]
fn points_over_limit_are_folded() {
    let points: Vec<Point> = (0..MAX_NAMES_PER_SCALE + 3)
        .map(|i| pt(&format!("県{i}"), &format!("地点{i}"), 40))
        .collect();
    let text = fmt_points(&points).unwrap();
    assert!(text.contains("ほか3地点"), "超過分が畳まれる: {text}");
}

#[test]
fn eew_areas_use_same_intensity_notation() {
    // 緊急地震速報の対象地域も震度速報と同じ「震度X: …」表記に統一する。
    let items = vec![
        ("神奈川県西部", 45),
        ("東京都23区", 40),
        ("神奈川県東部", 45),
    ];
    let text = fmt_intensity_groups(&items, "地域", &[]).unwrap();
    assert_eq!(text, "5弱: 神奈川県西部、神奈川県東部\n4: 東京都23区");
}

#[test]
fn eew_area_list_omits_shindo0() {
    // 震度0の地域は「強い揺れが予想される地域」に載せない。
    let eew = eew(vec![
        area("神奈川", "神奈川県西部", 45, 45),
        area("東京", "東京都23区", 0, 0),
    ]);
    let payload = build_eew_payload(&eew, "", false, false);
    let areas = payload["embeds"][0]["fields"][4]["value"].as_str().unwrap();
    assert_eq!(areas, "5弱: 神奈川県西部");
}

#[test]
fn magnitudes_and_depths_are_written_out() {
    assert_eq!(fmt_magnitude(&measure(6.1, "6.1")), "M6.1");
    assert_eq!(fmt_magnitude(&measure(0.0, "0.0")), "M0.0");
    assert_eq!(fmt_magnitude(&measure(-1.0, "-1.0")), "不明");
    assert_eq!(fmt_depth(&measure(10.0, "10")), "10km");
    assert_eq!(fmt_depth(&measure(0.0, "0")), "ごく浅い");
    assert_eq!(fmt_depth(&measure(-0.0, "0")), "ごく浅い");
    assert_eq!(fmt_depth(&measure(-1.0, "-1")), "不明");
}

fn detailed_quake() -> JmaQuake {
    JmaQuake {
        code: 551,
        issue: QuakeIssue { issue_type: "DetailScale".to_string() },
        earthquake: Earthquake {
            time: "2026/06/28 05:21:00".to_string(),
            hypocenter: Hypocenter {
                name: "千葉県北西部".to_string(),
                latitude: Real { bits: 35.7_f64.to_bits() },
                longitude: Real { bits: 140.1_f64.to_bits() },
                depth: measure(70.0, "70"),
                magnitude: measure(5.2, "5.2"),
            },
            max_scale: 45,
            domestic_tsunami: "Checking".to_string(),
        },
        points: vec![pt("千葉県", "千葉中央区都町", 45)],
    }
}

#[test]
fn quake_payload_shows_every_field() {
    let payload = build_payload(&detailed_quake(), "千葉県で最大震度5弱を観測", true, false);
    let expected = parse(
        r#"{"embeds":[{
            "title":"🚨🌊 地震情報（最大震度 5弱）",
            "description":"千葉県で最大震度5弱を観測",
            "color":16746496,
            "fields":[
                {"name":"震源地","value":"千葉県北西部","inline":true},
                {"name":"マグニチュード","value":"M5.2","inline":true},
                {"name":"深さ","value":"70km","inline":true},
                {"name":"発生時刻","value":"2026/06/28 05:21:00","inline":false},
                {"name":"各地の震度","value":"5弱: 千葉中央区都町","inline":false},
                {"name":"津波","value":"調査中","inline":false}
            ],
            "footer":{"text":"出典: 気象庁（P2P地震情報経由） ・ 地図: 地理院タイル https://maps.gsi.go.jp/development/ichiran.html ・ 観測点座標: 気象庁 https://ds.data.jma.go.jp/eqev/data/intens-st/ を本botで加工"},
            "image":{"url":"attachment://quake.webp"}
        }]}"#,
    );
    assert_eq!(payload, expected);
}

#[test]
fn prompt_test_payload_says_what_it_is() {
    let mut quake = quake(vec![]);
    quake.issue.issue_type = "ScalePrompt".to_string();
    quake.earthquake.max_scale = 40;
    quake.earthquake.hypocenter.depth = measure(-1.0, "-1");
    quake.earthquake.hypocenter.magnitude = measure(-1.0, "-1.0");
    let payload = build_payload(&quake, "理由", false, true);
    let expected = parse(
        r#"{"embeds":[{
            "title":"🧪【テスト通知】震度速報（最大震度 4）",
            "description":"理由（速報のため続報で震源・規模などの詳細が入ります）",
            "color":16760832,
            "fields":[
                {"name":"震源地","value":"不明","inline":true},
                {"name":"マグニチュード","value":"不明","inline":true},
                {"name":"深さ","value":"不明","inline":true},
                {"name":"発生時刻","value":"不明","inline":false},
                {"name":"津波","value":"不明","inline":false}
            ],
            "footer":{"text":"出典: 気象庁（P2P地震情報経由） ・ これはテスト送信です"}
        }]}"#,
    );
    assert_eq!(payload, expected);
}

#[test]
fn eew_payload_shows_the_forecast() {
    let mut eew = eew(vec![
        area("熊本", "熊本県熊本", 45, 99),
        area("熊本", "熊本県球磨", 40, 45),
    ]);
    eew.issue.time = "2026/07/28 17:08:41".to_string();
    let payload = build_eew_payload(&eew, "理由", false, true);
    let embed = &payload["embeds"][0];
    assert_eq!(
        embed["title"],
        "🧪【テスト通知】⚡ 緊急地震速報（予想最大震度 5弱程度以上）"
    );
    assert_eq!(
        embed["description"],
        "理由（速報・予想値のため続報で変わることがあります）"
    );
    assert_eq!(embed["fields"][3]["value"], "2026/07/28 17:08:41");
    assert_eq!(
        embed["fields"][4]["value"],
        "5弱程度以上: 熊本県熊本、熊本県球磨"
    );
    assert_eq!(
        embed["footer"]["text"],
        "出典: 気象庁 緊急地震速報（P2P地震情報経由・予想値）"
    );
    assert!(embed.get("image").is_none());

    let none = build_eew_payload(&self::eew(vec![]), "", true, false);
    assert_eq!(none["embeds"][0]["fields"][4]["value"], "—");
    assert_eq!(none["embeds"][0]["image"]["url"], "attachment://quake.webp");
}

#[test]
fn withdrawn_warning_has_no_fields() {
    let mut eew = eew(vec![area("熊本", "熊本県熊本", 45, 99)]);
    eew.cancelled = true;
    let expected = parse(
        r#"{"embeds":[{
            "title":"⚠️ 緊急地震速報 取消",
            "description":"先ほどの緊急地震速報は取り消されました。",
            "color":8421504,
            "footer":{"text":"出典: 気象庁 緊急地震速報（P2P地震情報経由）"}
        }]}"#,
    );
    assert_eq!(build_eew_payload(&eew, "理由", true, false), expected);
}

fn tsunami(areas: &[(&str, &str, bool)]) -> Tsunami {
    Tsunami {
        id: "t1".to_string(),
        cancelled: false,
        issue: TsunamiIssue { time: String::new() },
        areas: areas
            .iter()
            .map(|(grade, name, immediate)| TsunamiArea {
                grade: grade.to_string(),
                immediate: *immediate,
                name: name.to_string(),
            })
            .collect(),
    }
}

#[test]
fn tsunami_payload_groups_coasts_by_grade() {
    let mut t = tsunami(&[
        ("Watch", "三陸沿岸", false),
        ("MajorWarning", "高知県", true),
        ("Watch", "相模湾", false),
        ("Unknown", "不明の沿岸", false),
    ]);
    t.issue.time = "2026/01/01 16:22:00".to_string();
    let expected = parse(
        r#"{"embeds":[{
            "title":"🌊 大津波警報",
            "description":"津波予報が発表されています。**直ちに津波来襲のおそれ**があります。沿岸から離れてください。",
            "color":10027161,
            "fields":[
                {"name":"大津波警報","value":"高知県","inline":false},
                {"name":"津波注意報","value":"三陸沿岸、相模湾","inline":false}
            ],
            "footer":{"text":"出典: 気象庁 津波予報（P2P地震情報経由） ・ 発表 2026/01/01 16:22:00"}
        }]}"#,
    );
    assert_eq!(build_tsunami_payload(&t, false), expected);
}

#[test]
fn tsunami_payload_without_areas_and_when_lifted() {
    let mut t = tsunami(&[]);
    let payload = build_tsunami_payload(&t, true);
    let embed = &payload["embeds"][0];
    assert_eq!(embed["title"], "🧪【テスト通知】🌊 津波予報");
    assert_eq!(
        embed["description"],
        "津波予報が発表されています。沿岸では注意してください。"
    );
    assert_eq!(embed["color"], 0x33_99_FF);
    assert_eq!(embed["fields"], parse("[]"));
    t.cancelled = true;
    let lifted = build_tsunami_payload(&t, false);
    assert_eq!(lifted["embeds"][0]["title"], "🌊 津波予報 解除");
    assert!(lifted["embeds"][0].get("fields").is_none());
}
