use quake_alert::audit::{audit, report_lines, station_places, Summary};
use quake_alert::reading::{Measure, Real};
use quake_alert::stations::{
    civil_date, convert, file_with_digest, format_coord, hex, station_file, utc_date, Coordinates,
    ConvertError,
};
use serde_json::Value;

fn parse(text: &str) -> Value {
    serde_json::from_str(text).unwrap()
}

/// 数値または数値の文字列を読む。
fn reading(value: Option<&Value>) -> Option<Measure> {
    let number: f64 = match value? {
        Value::Number(n) => n.as_f64()?,
        Value::String(s) => s.parse().ok()?,
        _ => return None,
    };
    Some(Measure {
        value: Real { bits: number.to_bits() },
        shown: format!("{number:.6}"),
    })
}

fn convert_all(stations: &[Value]) -> Result<Vec<String>, ConvertError> {
    let at: Vec<Coordinates> = stations
        .iter()
        .map(|s| (reading(s.get("lat")), reading(s.get("lon"))))
        .collect();
    convert(stations, &at)
}

fn station(pref: &str, affi: &str, name: &str, lat: &str, lon: &str) -> Value {
    let mut value = parse("{}");
    value["pref"] = Value::from(pref);
    value["affi"] = Value::from(affi);
    value["name"] = Value::from(name);
    value["lat"] = Value::from(lat);
    value["lon"] = Value::from(lon);
    value
}

#[test]
fn uses_public_json_coordinates() {
    assert_eq!(
        convert_all(&[station("1", "0", "観測点", "43.17167", "141.315")]).unwrap(),
        vec!["北海道\t観測点\t43.17167\t141.315"]
    );
    assert_eq!(
        convert_all(&[station("1", "0", "観測点", "43.17", "141.32")]).unwrap(),
        vec!["北海道\t観測点\t43.17\t141.32"]
    );
}

#[test]
fn formats_binary_float_without_artifacts() {
    assert_eq!(
        convert_all(&[station("1", "0", "観測点", "35.69", "139.70")]).unwrap(),
        vec!["北海道\t観測点\t35.69\t139.7"]
    );
    assert_eq!(format_coord("100.000000"), "100");
    assert_eq!(format_coord("-0.000000"), "0");
    assert_eq!(format_coord("0.000000"), "0");
    assert_eq!(format_coord("-0.500000"), "-0.5");
}

#[test]
fn invalid_coordinates_and_keys_are_rejected() {
    for value in [
        station("1", "0", "観測点", "nan", "141.32"),
        station("1", "0", "観測点", "43.17", "inf"),
        station("1", "0", "観測点", "91", "141.32"),
        station("1", "0", "観測点", "43.17", "181"),
        station("0", "0", "観測点", "43.17", "141.32"),
        station("48", "0", "観測点", "43.17", "141.32"),
        station("1", "3", "観測点", "43.17", "141.32"),
        station("1", "0", "地点\t名前", "43.17", "141.32"),
    ] {
        assert!(convert_all(&[value]).is_err());
    }
    assert!(convert_all(&[
        station("1", "0", "観測点", "43.17", "141.32"),
        station("1", "0", "観測点", "43.17", "141.32"),
    ])
    .is_err());
    assert!(convert_all(&[]).is_err());
}

#[test]
fn same_name_in_different_prefectures_is_kept() {
    let rows = convert_all(&[
        station("2", "0", "同名", "43.17", "141.32"),
        station("1", "0", "同名", "43.17", "141.32"),
    ])
    .unwrap();
    assert_eq!(rows.len(), 2);
    assert!(rows[0].starts_with("北海道\t"));
    assert!(rows[1].starts_with("青森県\t"));
}

#[test]
fn every_flaw_has_its_message() {
    let message = |text: &str| convert_all(&[parse(text)]).unwrap_err().message();
    assert_eq!(
        convert_all(&[]).unwrap_err().message(),
        "観測点データは空でない配列である必要があります"
    );
    assert_eq!(message("3"), "観測点がオブジェクトではありません");
    assert_eq!(message("{}"), "観測点に pref がありません");
    assert_eq!(message(r#"{"pref":true}"#), "pref が整数ではありません");
    assert_eq!(message(r#"{"pref":1.5}"#), "pref が整数ではありません");
    assert_eq!(
        message(r#"{"pref":2147483648}"#),
        "pref が整数ではありません"
    );
    assert_eq!(message(r#"{"pref":"1 "}"#), "pref が整数ではありません");
    assert_eq!(message(r#"{"pref":1}"#), "観測点に affi がありません");
    assert_eq!(
        message(r#"{"pref":1,"affi":0,"name":3}"#),
        "観測点名が文字列ではありません"
    );
    assert_eq!(
        message(r#"{"pref":1,"affi":0,"name":"a"}"#),
        "観測点に lat がありません"
    );
    assert_eq!(
        message(r#"{"pref":1,"affi":0,"name":"a","lat":"x"}"#),
        "lat が数値ではありません"
    );
    assert_eq!(
        message(r#"{"pref":1,"affi":0,"name":"a","lat":1}"#),
        "観測点に lon がありません"
    );
    assert_eq!(
        message(r#"{"pref":1,"affi":0,"name":"a","lat":1,"lon":[]}"#),
        "lon が数値ではありません"
    );
    assert_eq!(
        message(r#"{"pref":48,"affi":0,"name":"","lat":0,"lon":0}"#),
        "不正な都道府県コード・所属です"
    );
    assert_eq!(
        message(r#"{"pref":47,"affi":2,"name":"","lat":0,"lon":0}"#),
        "不正な観測点名です"
    );
    assert_eq!(
        message(r#"{"pref":47,"affi":2,"name":"a","lat":0,"lon":0}"#),
        "不正な座標: a"
    );
    let twice = [
        station("13", "1", "甲", "35", "139"),
        station("+13", "2", "甲", "36", "140"),
    ];
    assert_eq!(
        convert_all(&twice).unwrap_err().message(),
        "都道府県・観測点名の重複: 13 甲"
    );
}

#[test]
fn codes_are_read_as_numbers_or_texts() {
    let code = |text: &str| {
        let mut value = station("1", "0", "甲", "35", "139");
        value["pref"] = parse(text);
        convert_all(&[value])
    };
    assert!(code("13").unwrap()[0].starts_with("東京都\t"));
    assert!(code(r#""13""#).unwrap()[0].starts_with("東京都\t"));
    assert!(code(r#""+0000000000000000013""#).unwrap()[0].starts_with("東京都\t"));
    for text in [
        r#""""#,
        r#""+""#,
        r#""-""#,
        r#""1a""#,
        r#""１３""#,
        r#""99999999999999999999""#,
        r#""-99999999999999999999""#,
        r#""2147483648""#,
    ] {
        let error = code(text).unwrap_err();
        assert!(matches!(error, ConvertError::NotInteger { .. }), "{text}");
    }
    for text in [r#""2147483647""#, r#""-2147483648""#, "-1"] {
        let error = code(text).unwrap_err();
        assert!(matches!(error, ConvertError::BadCode), "{text}");
    }
}

#[test]
fn the_list_does_not_depend_on_the_order_of_publication() {
    let a = station("13", "0", "乙", "35", "139");
    let b = station("13", "0", "甲", "35", "139");
    let c = station("2", "0", "丙", "40.5", "141");
    let forward = convert_all(&[a.clone(), b.clone(), c.clone()]).unwrap();
    let backward = convert_all(&[c, b, a]).unwrap();
    assert_eq!(forward, backward);
    assert_eq!(
        forward,
        [
            "青森県\t丙\t40.5\t141",
            "東京都\t乙\t35\t139",
            "東京都\t甲\t35\t139"
        ]
    );
}

#[test]
fn days_are_dated_by_the_calendar() {
    assert_eq!(civil_date(0), (1970, 1, 1));
    assert_eq!(civil_date(58), (1970, 2, 28));
    assert_eq!(civil_date(59), (1970, 3, 1));
    assert_eq!(civil_date(11_016), (2000, 2, 29));
    assert_eq!(civil_date(11_017), (2000, 3, 1));
    assert_eq!(civil_date(20_454), (2026, 1, 1));
    assert_eq!(civil_date(146_097), (2370, 1, 1));
    assert_eq!(utc_date(0), "1970-01-01");
    assert_eq!(utc_date(86_399), "1970-01-01");
    assert_eq!(utc_date(951_782_400), "2000-02-29");
    assert_eq!(utc_date(4_107_542_400), "2100-03-01");
    assert_eq!(utc_date(253_402_300_800), "10000-01-01");
}

#[test]
fn the_file_names_its_source() {
    let lines = vec!["a".to_string(), "b".to_string()];
    let expected = "# 出典: 気象庁 震度観測点 https://ds.data.jma.go.jp/eqev/data/intens-st/stations.json\n\
        # quake-alert-botが都道府県名へ変換・整列（座標は公開JSONの値を使用）\n\
        # 生成日(UTC): 2026-01-01 / 入力SHA-256: ba7816bf8f01cfea414140de5dae2223b00361a396177a9cb410ff61f20015ad\n\
        # 観測点数: 2\n\
        # 都道府県\t観測点名\t緯度\t経度\n\
        a\nb\n";
    assert_eq!(station_file(b"abc", "2026-01-01", &lines), expected);
    let other = file_with_digest("d", &[0x0f, 0xa0], &[]);
    assert!(other.contains("入力SHA-256: 0fa0\n# 観測点数: 0\n"));
    assert_eq!(hex(&[]), "");
}

fn summary<'a>(list: &'a [(String, Summary)], kind: &str) -> &'a Summary {
    &list.iter().find(|(k, _)| k == kind).unwrap().1
}

#[test]
fn area_and_station_names_are_counted_separately() {
    let reports = vec![
        parse(
            r#"{
                "issue":{"type":"ScalePrompt"},
                "points":[
                    {"pref":"東京","addr":"東京都２３区","isArea":true}
                ]
            }"#,
        ),
        parse(
            r#"{
                "issue":{"type":"DetailScale"},
                "points":[
                    {"pref":"東京都","addr":"東京都23区","isArea":false},
                    {"pref":"東京都","addr":"東京都23区","isArea":false},
                    {"pref":"千葉県","addr":"存在しない地点","isArea":false}
                ]
            }"#,
        ),
    ];
    let stations = station_places("東京都\t東京都23区\t35\t139\n").unwrap();
    let list = audit(&reports);

    let prompt = summary(&list, "ScalePrompt");
    assert_eq!(prompt.area_count, 1);
    assert_eq!(prompt.area_names.len(), 1);
    assert_eq!(prompt.names.len(), 0);

    let detail = summary(&list, "DetailScale");
    assert_eq!(detail.names.len(), 2);
    assert_eq!(
        detail
            .names
            .iter()
            .filter(|(name, _)| stations
                .iter()
                .any(|s| s.pref == name.pref && s.addr == name.addr))
            .count(),
        1
    );
    assert_eq!(
        report_lines(&list, &stations),
        [
            "DetailScale: 報数=1 地点出現数=3 固有地点=2 isArea=0 区域固有名=0 観測点一致=1 観測点未一致=1",
            "  未一致 千葉県\t存在しない地点\t1件",
            "ScalePrompt: 報数=1 地点出現数=1 固有地点=0 isArea=1 区域固有名=1 観測点一致=0 観測点未一致=0",
        ]
    );
}

#[test]
fn reports_without_a_kind_or_points_are_counted() {
    let reports = vec![
        parse(r#"{"points":[{"addr":"乙"},{"addr":"甲"},{"addr":"甲"},{}]}"#),
        parse(r#"{"issue":{"type":3}}"#),
        parse("5"),
    ];
    let list = audit(&reports);
    assert_eq!(list.len(), 1);
    assert_eq!(list[0].1.reports, 3);
    assert_eq!(
        report_lines(&list, &[]),
        [
            "(不明): 報数=3 地点出現数=4 固有地点=3 isArea=0 区域固有名=0 観測点一致=0 観測点未一致=3",
            "  未一致 \t\t1件",
            "  未一致 \t乙\t1件",
            "  未一致 \t甲\t2件",
        ]
    );
}

#[test]
fn station_places_refuse_a_line_with_other_columns() {
    let places = station_places("# 注\n\n北海道\t甲\t43\t141\n").unwrap();
    assert_eq!(places.len(), 1);
    assert_eq!(
        (places[0].pref.as_str(), places[0].addr.as_str()),
        ("北海道", "甲")
    );
    assert_eq!(
        station_places("北海道\t甲\n青森県\n").unwrap_err(),
        "北海道\t甲"
    );
}
