use quake_alert::config::{
    default_attach_map, default_other_min_scale, default_tile_url_template,
    normalize_watched_points, Config, ConfigError, PlaceFault, TomlConfig, TomlWebhookConfig,
    WatchedPoint, WebhookConfig, DEFAULT_TILE_URL_TEMPLATE, DEFAULT_WS_URL,
};
use quake_alert::intensity::RegionScales;

fn text(table: &toml::Table, key: &str) -> Option<String> {
    table.get(key).map(|v| v.as_str().unwrap().to_string())
}

fn watched(value: &toml::Value) -> WatchedPoint {
    let table = value.as_table().unwrap();
    WatchedPoint {
        pref: text(table, "pref").unwrap(),
        name: text(table, "name").unwrap(),
        label: text(table, "label").unwrap_or_default(),
    }
}

fn webhook(table: &toml::Table) -> TomlWebhookConfig {
    let mut scales = RegionScales::new();
    if let Some(entries) = table.get("region_min_scales") {
        for (region, scale) in entries.as_table().unwrap() {
            scales.set(region, scale.as_integer().unwrap() as i32);
        }
    }
    TomlWebhookConfig {
        webhook_url_env: text(table, "webhook_url_env").unwrap(),
        watched_points: table
            .get("watched_points")
            .map(|v| v.as_array().unwrap().iter().map(watched).collect())
            .unwrap_or_default(),
        region_min_scales: scales,
        other_min_scale: table
            .get("other_min_scale")
            .map_or(default_other_min_scale(), |v| v.as_integer().unwrap() as i32),
        attach_map: table
            .get("attach_map")
            .map_or(default_attach_map(), |v| v.as_bool().unwrap()),
        tile_url_template: text(table, "tile_url_template")
            .unwrap_or_else(default_tile_url_template),
    }
}

fn read(contents: &str) -> TomlConfig {
    let table: toml::Table = toml::from_str(contents).unwrap();
    TomlConfig {
        ws_url: text(&table, "ws_url"),
        webhooks: table
            .get("webhooks")
            .map(|v| {
                v.as_table()
                    .unwrap()
                    .iter()
                    .map(|(name, hook)| (name.clone(), webhook(hook.as_table().unwrap())))
                    .collect()
            })
            .unwrap_or_default(),
    }
}

fn environment(env: &[(&str, &str)]) -> Vec<(String, String)> {
    env.iter()
        .map(|(k, v)| (k.to_string(), v.to_string()))
        .collect()
}

fn config(contents: &str, env: &[(&str, &str)]) -> Result<Config, ConfigError> {
    Config::from_toml(read(contents), &environment(env))
}

#[test]
fn toml_loads_multiple_webhooks_and_keeps_names() {
    let config = config(
        r#"
ws_url = "ws://localhost/ws"

[webhooks.home]
webhook_url_env = "DISCORD_WEBHOOK_HOME"
watched_points = [
  { pref = " 東京都 ", name = "東京都23区", label = " 自宅周辺 " },
  { pref = "東京都", name = "東京都23区", label = "自宅周辺" },
]
other_min_scale = 40
region_min_scales = { "関東" = 30, "近畿" = 45 }
tile_url_template = "home-tiles"

[webhooks.office]
webhook_url_env = "DISCORD_WEBHOOK_OFFICE"
other_min_scale = 55
region_min_scales = { "東北" = 50, "関東" = 45 }
attach_map = false
"#,
        &[
            ("DISCORD_WEBHOOK_HOME", "https://example.com/home"),
            ("DISCORD_WEBHOOK_OFFICE", "https://example.com/office"),
        ],
    )
    .unwrap();

    assert_eq!(config.ws_url, "ws://localhost/ws");
    assert_eq!(config.webhooks.len(), 2);
    let home = &config.webhooks[0];
    let office = &config.webhooks[1];
    assert_eq!(home.name, "home");
    assert_eq!(home.webhook_url, "https://example.com/home");
    assert_eq!(home.watched_points.len(), 1);
    assert_eq!(home.watched_points[0].label, "自宅周辺");
    assert_eq!(home.region_min_scales.get("関東"), Some(30));
    assert_eq!(home.other_min_scale, 40);
    assert_eq!(home.tile_url_template, "home-tiles");
    assert_eq!(office.name, "office");
    assert_eq!(office.webhook_url, "https://example.com/office");
    assert!(!office.attach_map);
    assert_eq!(office.region_min_scales.get("東北"), Some(50));
}

#[test]
fn defaults_are_applied() {
    let config = config(
        r#"
[webhooks.main]
webhook_url_env = "DISCORD_WEBHOOK_URL"
"#,
        &[
            ("P2PQUAKE_WS_URL", "ws://env/ws"),
            ("DISCORD_WEBHOOK_URL", "url"),
        ],
    )
    .unwrap();
    assert_eq!(config.ws_url, "ws://env/ws");
    let hook = &config.webhooks[0];
    assert_eq!(hook.other_min_scale, 50);
    assert!(hook.attach_map);
    assert_eq!(hook.tile_url_template, DEFAULT_TILE_URL_TEMPLATE);
    assert!(hook.watched_points.is_empty());
}

#[test]
fn the_official_feed_is_the_default() {
    let config = config(
        "[webhooks.main]\nwebhook_url_env = \" URL \"\n",
        &[("URL", "https://example.com/hook")],
    )
    .unwrap();
    assert_eq!(config.ws_url, DEFAULT_WS_URL);
    assert_eq!(config.webhooks[0].webhook_url, "https://example.com/hook");
}

#[test]
fn explicit_ws_url_takes_precedence_over_environment() {
    let config = config(
        r#"
ws_url = "ws://toml/ws"
[webhooks.main]
webhook_url_env = "DISCORD_WEBHOOK_URL"
"#,
        &[
            ("P2PQUAKE_WS_URL", "ws://env/ws"),
            ("DISCORD_WEBHOOK_URL", "url"),
        ],
    )
    .unwrap();
    assert_eq!(config.ws_url, "ws://toml/ws");
}

#[test]
fn invalid_settings_are_rejected_without_exposing_secret() {
    let secret = "https://discord.com/api/webhooks/private-secret";
    let error = config(
        r#"
[webhooks.main]
webhook_url_env = "DISCORD_WEBHOOK_URL"
region_min_scales = { "関東圏" = 40 }
"#,
        &[("DISCORD_WEBHOOK_URL", secret)],
    )
    .unwrap_err();
    assert!(error.message().contains("不明な地方"));
    assert!(!error.message().contains(secret));

    assert!(config(
        "[webhooks.main]\nwebhook_url_env = \"DISCORD_WEBHOOK_URL\"\n",
        &[],
    )
    .is_err());
    assert!(config("", &[]).is_err());
    assert!(config("[webhooks]\n", &[]).is_err());
}

#[test]
fn watched_points_are_deduplicated_and_validated() {
    let loaded = config(
        r#"
[webhooks.main]
webhook_url_env = "DISCORD_WEBHOOK_URL"
watched_points = [
  { pref = "東京都", name = "東京都23区", label = "自宅" },
  { pref = "東京都", name = "東京都23区", label = "自宅" },
]
"#,
        &[("DISCORD_WEBHOOK_URL", "url")],
    )
    .unwrap();
    assert_eq!(loaded.webhooks[0].watched_points.len(), 1);
    assert!(config(
        r#"
[webhooks.main]
webhook_url_env = "DISCORD_WEBHOOK_URL"
watched_points = [{ pref = " ", name = "東京都23区" }]
"#,
        &[("DISCORD_WEBHOOK_URL", "url")],
    )
    .is_err());
}

#[test]
fn every_fault_has_its_message() {
    let env = [("URL", "u"), ("BLANK", " \u{3000}")];
    let message = |contents: &str| config(contents, &env).unwrap_err().message();
    assert_eq!(message(""), "webhooksを1つ以上設定してください");
    assert_eq!(
        message("ws_url = \" \"\n[webhooks.main]\nwebhook_url_env = \"URL\"\n"),
        "ws_urlは空にできません"
    );
    assert_eq!(
        message("[webhooks.\" \"]\nwebhook_url_env = \"URL\"\n"),
        "webhooksの名前は空にできません"
    );
    assert_eq!(
        message("[webhooks.main]\nwebhook_url_env = \"\"\n"),
        "webhooks.main.webhook_url_envは必須です"
    );
    assert_eq!(
        message("[webhooks.main]\nwebhook_url_env = \"NONE\"\n"),
        "webhooks.mainが参照する環境変数NONEが未設定または空です"
    );
    assert_eq!(
        message("[webhooks.main]\nwebhook_url_env = \"BLANK\"\n"),
        "webhooks.mainが参照する環境変数BLANKが未設定または空です"
    );
    assert_eq!(
        message("[webhooks.main]\nwebhook_url_env = \"URL\"\nregion_min_scales = { \"南極\" = 1 }\n"),
        "webhooks.main.region_min_scalesに不明な地方があります: 南極"
    );
    assert_eq!(
        message(
            "[webhooks.main]\nwebhook_url_env = \"URL\"\n\
             watched_points = [{ pref = \"甲\", name = \"乙\" }, { pref = \"甲\", name = \" \" }]\n"
        ),
        "webhooks.main.watched_pointsが不正です: 2番目: prefとnameは必須です"
    );
    assert_eq!(
        message(
            "[webhooks.main]\nwebhook_url_env = \"URL\"\n\
             watched_points = [{ pref = \"甲\", name = \"乙\\n丙\" }]\n"
        ),
        "webhooks.main.watched_pointsが不正です: 1番目: 各項目は改行なしの100文字以内で指定してください"
    );
}

#[test]
fn webhooks_are_checked_one_by_one() {
    let raw = read("[webhooks.a]\nwebhook_url_env = \"A\"\n[webhooks.b]\nwebhook_url_env = \"B\"\n");
    let error = Config::from_toml(raw, &environment(&[("A", "x")])).unwrap_err();
    assert!(matches!(error, ConfigError::Unset { webhook, variable }
        if webhook == "b" && variable == "B"));
    let table: toml::Table = toml::from_str("webhook_url_env = \"A\"\n").unwrap();
    let hook = WebhookConfig::from_toml("a", webhook(&table), &environment(&[("A", "x")])).unwrap();
    assert_eq!((hook.name.as_str(), hook.webhook_url.as_str()), ("a", "x"));
}

fn point(pref: &str, name: &str, label: &str) -> WatchedPoint {
    WatchedPoint {
        pref: pref.to_string(),
        name: name.to_string(),
        label: label.to_string(),
    }
}

#[test]
fn normalizing_watched_points_twice_changes_nothing() {
    let once = normalize_watched_points(&[
        point(" 甲\t", "乙", ""),
        point("甲", "乙 ", ""),
        point("甲", "乙", "家"),
    ])
    .unwrap();
    assert_eq!(once, vec![point("甲", "乙", ""), point("甲", "乙", "家")]);
    assert_eq!(normalize_watched_points(&once).unwrap(), once);
    assert_eq!(
        normalize_watched_points(&[point(&"あ".repeat(101), "乙", "")]).unwrap_err(),
        (1, PlaceFault::Malformed)
    );
    assert!(normalize_watched_points(&[point(&"あ".repeat(100), "乙", "")]).is_ok());
    assert_eq!(
        normalize_watched_points(&[point("甲", "乙", ""), point("甲", "", "")]).unwrap_err(),
        (2, PlaceFault::Missing)
    );
}

#[test]
fn preview_tile_setting_does_not_require_webhook_secret() {
    let raw = read(
        r#"
[webhooks.main]
webhook_url_env = "DISCORD_WEBHOOK_URL"
tile_url_template = "preview-tiles"

[webhooks.another]
webhook_url_env = "ANOTHER"
tile_url_template = "other-tiles"
"#,
    );
    assert_eq!(Config::preview_tiles(&raw).unwrap(), "preview-tiles");
    let raw = read("[webhooks.b]\nwebhook_url_env = \"B\"\ntile_url_template = \"b\"\n[webhooks.a]\nwebhook_url_env = \"A\"\ntile_url_template = \"a\"\n");
    assert_eq!(Config::preview_tiles(&raw).unwrap(), "a");
    assert!(matches!(
        Config::preview_tiles(&read("")).unwrap_err(),
        ConfigError::NoWebhooks
    ));
}
