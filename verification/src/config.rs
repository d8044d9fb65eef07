//! The settings: where to send, what to announce there, and which places to point out.

use vstd::prelude::*;
use vstd::string::*;

use crate::intensity::{is_region, known_region, RegionScales};
use crate::text::{
    chars_of, control, decimal, decimal_text, distinct, is_control_char, lemma_distinct,
    lemma_distinct_fixed, lemma_distinct_push, lemma_trimmed_twice, same, trim, trimmed,
};

verus! {

/// The feed that is read if no other is set.
pub const DEFAULT_WS_URL: &'static str = "wss://api.p2pquake.net/v2/ws";

/// The map tiles that are used if no others are set.
pub const DEFAULT_TILE_URL_TEMPLATE: &'static str =
    "https://cyberjapandata.gsi.go.jp/xyz/blank/{z}/{x}/{y}.png";

/// The environment variable that may name another feed.
pub const WS_URL_VARIABLE: &'static str = "P2PQUAKE_WS_URL";

/// All settings.
#[derive(Debug, Clone)]
pub struct Config {
    /// The feed, shared by all webhooks.
    pub ws_url: String,
    pub webhooks: Vec<WebhookConfig>,
}

/// What is sent to one webhook.
#[derive(Debug, Clone)]
pub struct WebhookConfig {
    /// The `<name>` of `[webhooks.<name>]`.
    pub name: String,
    pub webhook_url: String,
    /// The places that are pointed out.
    pub watched_points: Vec<WatchedPoint>,
    /// The least intensity announced, by region.
    pub region_min_scales: RegionScales,
    /// The least intensity announced in all other regions.
    pub other_min_scale: i32,
    pub attach_map: bool,
    pub tile_url_template: String,
}

/// A settings file as written.
#[derive(Debug)]
pub struct TomlConfig {
    /// Without it the environment decides, and then the default.
    pub ws_url: Option<String>,
    /// The webhooks in the order of their names.
    pub webhooks: Vec<(String, TomlWebhookConfig)>,
}

/// The settings of one webhook as written.
#[derive(Debug)]
pub struct TomlWebhookConfig {
    /// The environment variable that holds the URL: the file itself never does.
    pub webhook_url_env: String,
    pub watched_points: Vec<WatchedPoint>,
    pub region_min_scales: RegionScales,
    pub other_min_scale: i32,
    pub attach_map: bool,
    pub tile_url_template: String,
}

/// A place to point out, by its prefecture and its name in the feed.
#[derive(Debug, Clone, PartialEq, Eq)]
pub struct WatchedPoint {
    pub pref: String,
    pub name: String,
    /// How the place is called here; may be empty.
    pub label: String,
}

/// The prefecture, the name and the label of a place.
pub type Place = (Seq<char>, Seq<char>, Seq<char>);

impl WatchedPoint {
    /// What the three texts hold.
    pub open spec fn place(self) -> Place {
        (self.pref@, self.name@, self.label@)
    }
}

/// The places of a list.
pub open spec fn places(points: Seq<WatchedPoint>) -> Seq<Place> {
    Seq::new(points.len(), |i: int| points[i].place())
}

/// A place without white space around its texts.
pub open spec fn trimmed_place(p: Place) -> Place {
    (trimmed(p.0), trimmed(p.1), trimmed(p.2))
}

/// The places of a list, without white space around their texts.
pub open spec fn trimmed_places(points: Seq<Place>) -> Seq<Place> {
    Seq::new(points.len(), |i: int| trimmed_place(points[i]))
}

/// A text on one line that is short enough to be shown.
pub open spec fn presentable(s: Seq<char>) -> bool {
    s.len() <= 100 && forall|i: int| 0 <= i < s.len() ==> !is_control_char(#[trigger] s[i])
}

/// What can be wrong with a place.
#[derive(Debug, Clone, Copy, PartialEq, Eq, Structural)]
pub enum PlaceFault {
    /// The prefecture or the name is empty.
    Missing,
    /// A text is too long or has control characters.
    Malformed,
}

/// What is wrong with a place whose texts are trimmed.
pub open spec fn place_fault(p: Place) -> Option<PlaceFault> {
    if p.0.len() == 0 || p.1.len() == 0 {
        Some(PlaceFault::Missing)
    } else if !(presentable(p.0) && presentable(p.1) && presentable(p.2)) {
        Some(PlaceFault::Malformed)
    } else {
        None
    }
}

/// The first place with a fault, counted from 1, and the fault.
pub open spec fn first_fault(points: Seq<Place>) -> Option<(nat, PlaceFault)>
    decreases points.len(),
{
    if points.len() == 0 {
        None
    } else {
        match first_fault(points.drop_last()) {
            Some(f) => Some(f),
            None => match place_fault(trimmed_place(points.last())) {
                Some(fault) => Some((points.len(), fault)),
                None => None,
            },
        }
    }
}

/// What can be wrong with the settings.
#[derive(Debug, Clone)]
pub enum ConfigError {
    NoWebhooks,
    EmptyWsUrl,
    EmptyName,
    NoVariable { webhook: String },
    Unset { webhook: String, variable: String },
    UnknownRegion { webhook: String, region: String },
    BadPlace { webhook: String, position: u64, fault: PlaceFault },
}

/// A fault of the settings, by what its texts hold.
pub ghost enum Fault {
    NoWebhooks,
    EmptyWsUrl,
    EmptyName,
    NoVariable(Seq<char>),
    Unset(Seq<char>, Seq<char>),
    UnknownRegion(Seq<char>, Seq<char>),
    BadPlace(Seq<char>, nat, PlaceFault),
}

/// How a fault of a place reads.
pub open spec fn place_fault_text(position: nat, fault: PlaceFault) -> Seq<char> {
    match fault {
        PlaceFault::Missing => decimal_text(position) + "番目: prefとnameは必須です"@,
        PlaceFault::Malformed => decimal_text(position)
            + "番目: 各項目は改行なしの100文字以内で指定してください"@,
    }
}

impl Fault {
    /// How a fault reads.
    pub open spec fn message(self) -> Seq<char> {
        match self {
            Fault::NoWebhooks => "webhooksを1つ以上設定してください"@,
            Fault::EmptyWsUrl => "ws_urlは空にできません"@,
            Fault::EmptyName => "webhooksの名前は空にできません"@,
            Fault::NoVariable(webhook) => "webhooks."@ + webhook + ".webhook_url_envは必須です"@,
            Fault::Unset(webhook, variable) => "webhooks."@ + webhook + "が参照する環境変数"@
                + variable + "が未設定または空です"@,
            Fault::UnknownRegion(webhook, region) => "webhooks."@ + webhook
                + ".region_min_scalesに不明な地方があります: "@ + region,
            Fault::BadPlace(webhook, position, fault) => "webhooks."@ + webhook
                + ".watched_pointsが不正です: "@ + place_fault_text(position, fault),
        }
    }
}

impl ConfigError {
    /// The fault that this error reports.
    pub open spec fn fault(self) -> Fault {
        match self {
            ConfigError::NoWebhooks => Fault::NoWebhooks,
            ConfigError::EmptyWsUrl => Fault::EmptyWsUrl,
            ConfigError::EmptyName => Fault::EmptyName,
            ConfigError::NoVariable { webhook } => Fault::NoVariable(webhook@),
            ConfigError::Unset { webhook, variable } => Fault::Unset(webhook@, variable@),
            ConfigError::UnknownRegion { webhook, region } => Fault::UnknownRegion(
                webhook@,
                region@,
            ),
            ConfigError::BadPlace { webhook, position, fault } => Fault::BadPlace(
                webhook@,
                position as nat,
                fault,
            ),
        }
    }

    /// How the error reads.
    pub fn message(&self) -> (r: String)
        ensures
            r@ == self.fault().message(),
    {
        match self {
            ConfigError::NoWebhooks => "webhooksを1つ以上設定してください".to_owned(),
            ConfigError::EmptyWsUrl => "ws_urlは空にできません".to_owned(),
            ConfigError::EmptyName => "webhooksの名前は空にできません".to_owned(),
            ConfigError::NoVariable { webhook } => "webhooks.".to_owned().concat(
                webhook.as_str(),
            ).concat(".webhook_url_envは必須です"),
            ConfigError::Unset { webhook, variable } => "webhooks.".to_owned().concat(
                webhook.as_str(),
            ).concat("が参照する環境変数").concat(variable.as_str()).concat(
                "が未設定または空です",
            ),
            ConfigError::UnknownRegion { webhook, region } => "webhooks.".to_owned().concat(
                webhook.as_str(),
            ).concat(".region_min_scalesに不明な地方があります: ").concat(region.as_str()),
            ConfigError::BadPlace { webhook, position, fault } => {
                let what = match fault {
                    PlaceFault::Missing => decimal(*position).concat(
                        "番目: prefとnameは必須です",
                    ),
                    PlaceFault::Malformed => decimal(*position).concat(
                        "番目: 各項目は改行なしの100文字以内で指定してください",
                    ),
                };
                "webhooks.".to_owned().concat(webhook.as_str()).concat(
                    ".watched_pointsが不正です: ",
                ).concat(what.as_str())
            },
        }
    }
}

/// The value of an environment variable.
pub open spec fn variable(env: Seq<(String, String)>, key: Seq<char>) -> Option<Seq<char>>
    decreases env.len(),
{
    if env.len() == 0 {
        None
    } else if env[0].0@ == key {
        Some(env[0].1@)
    } else {
        variable(env.drop_first(), key)
    }
}

/// The value of an environment variable.
fn look_up<'a>(env: &'a [(String, String)], key: &str) -> (r: Option<&'a str>)
    ensures
        match r {
            Some(s) => variable(env@, key@) == Some(s@),
            None => variable(env@, key@) is None,
        },
{
    assert(env@.skip(0) =~= env@);
    let n: usize = env.len();
    let mut i: usize = 0;
    while i < n
        invariant
            n == env@.len(),
            i <= n,
            variable(env@, key@) == variable(env@.skip(i as int), key@),
        decreases n - i,
    {
        if same(env[i].0.as_str(), key) {
            return Some(env[i].1.as_str());
        }
        assert(env@.skip(i as int).drop_first() =~= env@.skip(i + 1));
        i = i + 1;
    }
    None
}

/// Nothing but white space.
pub open spec fn blank(s: Seq<char>) -> bool {
    trimmed(s).len() == 0
}

fn is_blank(s: &str) -> (r: bool)
    ensures
        r == blank(s@),
{
    trim(s).as_str().unicode_len() == 0
}

/// The first region of a list that is none.
pub open spec fn first_unknown(entries: Seq<(String, i32)>) -> Option<Seq<char>>
    decreases entries.len(),
{
    if entries.len() == 0 {
        None
    } else {
        match first_unknown(entries.drop_last()) {
            Some(r) => Some(r),
            None => if is_region(entries.last().0@) {
                None
            } else {
                Some(entries.last().0@)
            },
        }
    }
}

/// What is wrong with the settings of a webhook.
pub open spec fn webhook_fault(
    name: Seq<char>,
    raw: TomlWebhookConfig,
    env: Seq<(String, String)>,
) -> Option<Fault> {
    let key = trimmed(raw.webhook_url_env@);
    if key.len() == 0 {
        Some(Fault::NoVariable(name))
    } else if variable(env, key) is None || blank(variable(env, key)->0) {
        Some(Fault::Unset(name, key))
    } else {
        match first_unknown(raw.region_min_scales.entries@) {
            Some(region) => Some(Fault::UnknownRegion(name, region)),
            None => match first_fault(places(raw.watched_points@)) {
                Some((position, fault)) => Some(Fault::BadPlace(name, position, fault)),
                None => None,
            },
        }
    }
}

/// The settings that a webhook without faults gets.
pub open spec fn is_webhook_of(
    w: WebhookConfig,
    name: Seq<char>,
    raw: TomlWebhookConfig,
    env: Seq<(String, String)>,
) -> bool {
    &&& w.name@ == name
    &&& Some(w.webhook_url@) == variable(env, trimmed(raw.webhook_url_env@))
    &&& places(w.watched_points@) == distinct(trimmed_places(places(raw.watched_points@)))
    &&& w.region_min_scales == raw.region_min_scales
    &&& w.other_min_scale == raw.other_min_scale
    &&& w.attach_map == raw.attach_map
    &&& w.tile_url_template == raw.tile_url_template
}

/// The first fault of a list of webhooks.
pub open spec fn first_webhook_fault(
    webhooks: Seq<(String, TomlWebhookConfig)>,
    env: Seq<(String, String)>,
) -> Option<Fault>
    decreases webhooks.len(),
{
    if webhooks.len() == 0 {
        None
    } else {
        match first_webhook_fault(webhooks.drop_last(), env) {
            Some(f) => Some(f),
            None => if blank(webhooks.last().0@) {
                Some(Fault::EmptyName)
            } else {
                webhook_fault(webhooks.last().0@, webhooks.last().1, env)
            },
        }
    }
}

/// The feed: that of the file, or that of the environment, or the default.
pub open spec fn feed_url(raw: TomlConfig, env: Seq<(String, String)>) -> Seq<char> {
    match raw.ws_url {
        Some(url) => url@,
        None => match variable(env, WS_URL_VARIABLE@) {
            Some(url) => url,
            None => DEFAULT_WS_URL@,
        },
    }
}

/// The first fault of the settings.
pub open spec fn config_fault(raw: TomlConfig, env: Seq<(String, String)>) -> Option<Fault> {
    if raw.webhooks@.len() == 0 {
        Some(Fault::NoWebhooks)
    } else if blank(feed_url(raw, env)) {
        Some(Fault::EmptyWsUrl)
    } else {
        first_webhook_fault(raw.webhooks@, env)
    }
}

/// The least intensity announced where nothing is set.
pub fn default_other_min_scale() -> (r: i32)
    ensures
        r == 50,
{
    50
}

/// Maps are attached where nothing is set.
pub fn default_attach_map() -> (r: bool)
    ensures
        r,
{
    true
}

/// The map tiles where nothing is set.
pub fn default_tile_url_template() -> (r: String)
    ensures
        r@ == DEFAULT_TILE_URL_TEMPLATE@,
{
    DEFAULT_TILE_URL_TEMPLATE.to_owned()
}

/// The position of the first webhook of that name.
pub open spec fn position_of(
    webhooks: Seq<(String, TomlWebhookConfig)>,
    name: Seq<char>,
) -> Option<int>
    decreases webhooks.len(),
{
    if webhooks.len() == 0 {
        None
    } else {
        match position_of(webhooks.drop_last(), name) {
            Some(i) => Some(i),
            None => if webhooks.last().0@ == name {
                Some(webhooks.len() - 1)
            } else {
                None
            },
        }
    }
}

/// The webhook whose tiles a preview uses: `main`, or the first.
pub open spec fn preview_webhook(webhooks: Seq<(String, TomlWebhookConfig)>) -> Option<int> {
    match position_of(webhooks, "main"@) {
        Some(i) => Some(i),
        None => if webhooks.len() == 0 {
            None
        } else {
            Some(0)
        },
    }
}

impl Config {
    /// Checks the settings of a file against the environment.
    pub fn from_toml(raw: TomlConfig, env: &[(String, String)]) -> (r: Result<Self, ConfigError>)
        ensures
            match r {
                Ok(c) => {
                    &&& config_fault(raw, env@) is None
                    &&& c.ws_url@ == feed_url(raw, env@)
                    &&& c.webhooks@.len() == raw.webhooks@.len()
                    &&& forall|i: int|
                        0 <= i < c.webhooks@.len() ==> is_webhook_of(
                            #[trigger] c.webhooks@[i],
                            raw.webhooks@[i].0@,
                            raw.webhooks@[i].1,
                            env@,
                        )
                },
                Err(e) => config_fault(raw, env@) == Some(e.fault()),
            },
    {
        if raw.webhooks.len() == 0 {
            return Err(ConfigError::NoWebhooks);
        }
        let TomlConfig { ws_url, webhooks: raw_webhooks } = raw;
        let url: String = match ws_url {
            Some(url) => url,
            None => match look_up(env, WS_URL_VARIABLE) {
                Some(url) => url.to_owned(),
                None => DEFAULT_WS_URL.to_owned(),
            },
        };
        if is_blank(url.as_str()) {
            return Err(ConfigError::EmptyWsUrl);
        }
        let ghost all = raw_webhooks@;
        let mut rest = raw_webhooks;
        let mut webhooks: Vec<WebhookConfig> = Vec::new();
        assert(all.take(0) =~= Seq::<(String, TomlWebhookConfig)>::empty());
        assert(all.skip(0) =~= all);
        while rest.len() > 0
            invariant
                all == raw.webhooks@,
                all.len() > 0,
                config_fault(raw, env@) == first_webhook_fault(all, env@),
                webhooks@.len() + rest@.len() == all.len(),
                rest@ == all.skip(webhooks@.len() as int),
                first_webhook_fault(all.take(webhooks@.len() as int), env@) is None,
                forall|i: int|
                    0 <= i < webhooks@.len() ==> is_webhook_of(
                        #[trigger] webhooks@[i],
                        all[i].0@,
                        all[i].1,
                        env@,
                    ),
            decreases rest@.len(),
        {
            let ghost n = webhooks@.len() as int;
            let ghost before = webhooks@;
            let (name, webhook) = rest.remove(0);
            proof {
                assert(all.skip(n)[0] == all[n]);
                assert(rest@ =~= all.skip(n + 1));
                assert(all.take(n + 1).drop_last() =~= all.take(n));
                assert(all.take(n + 1).last() == all[n]);
            }
            if is_blank(name.as_str()) {
                proof {
                    lemma_first_webhook_fault(all, n + 1, env@);
                }
                return Err(ConfigError::EmptyName);
            }
            match WebhookConfig::from_toml(name.as_str(), webhook, env) {
                Ok(w) => {
                    webhooks.push(w);
                    assert forall|i: int| 0 <= i < webhooks@.len() implies is_webhook_of(
                        #[trigger] webhooks@[i],
                        all[i].0@,
                        all[i].1,
                        env@,
                    ) by {
                        if i < n {
                            assert(webhooks@[i] == before[i]);
                        }
                    }
                },
                Err(e) => {
                    proof {
                        lemma_first_webhook_fault(all, n + 1, env@);
                    }
                    return Err(e);
                },
            }
        }
        assert(all.take(webhooks@.len() as int) =~= all);
        Ok(Config { ws_url: url, webhooks })
    }

    /// The map tiles that a preview uses: those of `main`, or of the first webhook. The
    /// URLs of the webhooks play no part.
    pub fn preview_tiles(raw: &TomlConfig) -> (r: Result<String, ConfigError>)
        ensures
            match r {
                Ok(t) => {
                    &&& preview_webhook(raw.webhooks@) is Some
                    &&& t@ == raw.webhooks@[preview_webhook(
                        raw.webhooks@,
                    )->0].1.tile_url_template@
                },
                Err(e) => preview_webhook(raw.webhooks@) is None && e.fault() == Fault::NoWebhooks,
            },
    {
        let ghost all = raw.webhooks@;
        for i in 0..raw.webhooks.len()
            invariant
                all == raw.webhooks@,
                position_of(all.take(i as int), "main"@) is None,
        {
            proof {
                assert(all.take(i + 1).drop_last() =~= all.take(i as int));
                assert(all.take(i + 1).last() == all[i as int]);
            }
            if same(raw.webhooks[i].0.as_str(), "main") {
                proof {
                    lemma_position_of(all, i + 1, "main"@);
                }
                return Ok(raw.webhooks[i].1.tile_url_template.clone());
            }
        }
        assert(all.take(all.len() as int) =~= all);
        if raw.webhooks.len() == 0 {
            Err(ConfigError::NoWebhooks)
        } else {
            Ok(raw.webhooks[0].1.tile_url_template.clone())
        }
    }
}

/// A fault that a part of a list shows is the fault of the whole list.
proof fn lemma_first_webhook_fault(
    webhooks: Seq<(String, TomlWebhookConfig)>,
    n: int,
    env: Seq<(String, String)>,
)
    requires
        0 <= n <= webhooks.len(),
        first_webhook_fault(webhooks.take(n), env) is Some,
    ensures
        first_webhook_fault(webhooks, env) == first_webhook_fault(webhooks.take(n), env),
    decreases webhooks.len() - n,
{
    if n < webhooks.len() {
        assert(webhooks.take(n + 1).drop_last() =~= webhooks.take(n));
        lemma_first_webhook_fault(webhooks, n + 1, env);
    } else {
        assert(webhooks.take(n) =~= webhooks);
    }
}

/// A position that a part of a list shows is the position in the whole list.
proof fn lemma_position_of(webhooks: Seq<(String, TomlWebhookConfig)>, n: int, name: Seq<char>)
    requires
        0 <= n <= webhooks.len(),
        position_of(webhooks.take(n), name) is Some,
    ensures
        position_of(webhooks, name) == position_of(webhooks.take(n), name),
    decreases webhooks.len() - n,
{
    if n < webhooks.len() {
        assert(webhooks.take(n + 1).drop_last() =~= webhooks.take(n));
        lemma_position_of(webhooks, n + 1, name);
    } else {
        assert(webhooks.take(n) =~= webhooks);
    }
}

impl WebhookConfig {
    /// Checks the settings of one webhook against the environment.
    pub fn from_toml(name: &str, raw: TomlWebhookConfig, env: &[(String, String)]) -> (r: Result<
        Self,
        ConfigError,
    >)
        ensures
            match r {
                Ok(w) => webhook_fault(name@, raw, env@) is None && is_webhook_of(
                    w,
                    name@,
                    raw,
                    env@,
                ),
                Err(e) => webhook_fault(name@, raw, env@) == Some(e.fault()),
            },
    {
        let key = trim(raw.webhook_url_env.as_str());
        if key.as_str().unicode_len() == 0 {
            return Err(ConfigError::NoVariable { webhook: name.to_owned() });
        }
        let webhook_url: String = match look_up(env, key.as_str()) {
            Some(url) => {
                if is_blank(url) {
                    return Err(ConfigError::Unset { webhook: name.to_owned(), variable: key });
                }
                url.to_owned()
            },
            None => {
                return Err(ConfigError::Unset { webhook: name.to_owned(), variable: key });
            },
        };
        let ghost entries = raw.region_min_scales.entries@;
        assert(entries.take(0) =~= Seq::<(String, i32)>::empty());
        for i in 0..raw.region_min_scales.entries.len()
            invariant
                entries == raw.region_min_scales.entries@,
                first_unknown(entries.take(i as int)) is None,
                key@ == trimmed(raw.webhook_url_env@),
                key@.len() > 0,
                variable(env@, key@) is Some,
                !blank(variable(env@, key@)->0),
        {
            proof {
                assert(entries.take(i + 1).drop_last() =~= entries.take(i as int));
                assert(entries.take(i + 1).last() == entries[i as int]);
            }
            if !known_region(raw.region_min_scales.entries[i].0.as_str()) {
                proof {
                    lemma_first_unknown(entries, i + 1);
                }
                return Err(
                    ConfigError::UnknownRegion {
                        webhook: name.to_owned(),
                        region: raw.region_min_scales.entries[i].0.clone(),
                    },
                );
            }
        }
        assert(entries.take(entries.len() as int) =~= entries);
        match normalize_watched_points(&raw.watched_points) {
            Ok(watched_points) => Ok(
                WebhookConfig {
                    name: name.to_owned(),
                    webhook_url,
                    watched_points,
                    region_min_scales: raw.region_min_scales,
                    other_min_scale: raw.other_min_scale,
                    attach_map: raw.attach_map,
                    tile_url_template: raw.tile_url_template,
                },
            ),
            Err((position, fault)) => Err(
                ConfigError::BadPlace { webhook: name.to_owned(), position, fault },
            ),
        }
    }
}

/// An unknown region that a part of a list shows is that of the whole list.
proof fn lemma_first_unknown(entries: Seq<(String, i32)>, n: int)
    requires
        0 <= n <= entries.len(),
        first_unknown(entries.take(n)) is Some,
    ensures
        first_unknown(entries) == first_unknown(entries.take(n)),
    decreases entries.len() - n,
{
    if n < entries.len() {
        assert(entries.take(n + 1).drop_last() =~= entries.take(n));
        lemma_first_unknown(entries, n + 1);
    } else {
        assert(entries.take(n) =~= entries);
    }
}

fn is_presentable(s: &str) -> (r: bool)
    ensures
        r == presentable(s@),
{
    let chars = chars_of(s);
    if chars.len() > 100 {
        return false;
    }
    for i in 0..chars.len()
        invariant
            chars@ == s@,
            forall|j: int| 0 <= j < i ==> !is_control_char(#[trigger] s@[j]),
    {
        if control(chars[i]) {
            assert(is_control_char(s@[i as int]));
            return false;
        }
    }
    true
}

/// Whether a list holds a place.
fn holds_place(list: &Vec<WatchedPoint>, p: &WatchedPoint) -> (r: bool)
    ensures
        r == places(list@).contains(p.place()),
{
    for i in 0..list.len()
        invariant
            forall|j: int| 0 <= j < i ==> places(list@)[j] != p.place(),
    {
        let q = &list[i];
        assert(places(list@)[i as int] == q.place());
        if same(q.pref.as_str(), p.pref.as_str()) && same(q.name.as_str(), p.name.as_str())
            && same(q.label.as_str(), p.label.as_str()) {
            return true;
        }
    }
    false
}

/// Trims the texts of the places and drops repetitions; the first of equal places stays.
/// A place without prefecture or name, or with a text that cannot be shown on one line,
/// is refused, by its position from 1.
pub fn normalize_watched_points(points: &[WatchedPoint]) -> (r: Result<
    Vec<WatchedPoint>,
    (u64, PlaceFault),
>)
    ensures
        match r {
            Ok(v) => {
                &&& first_fault(places(points@)) is None
                &&& places(v@) == distinct(trimmed_places(places(points@)))
            },
            Err((position, fault)) => first_fault(places(points@)) == Some(
                (position as nat, fault),
            ),
        },
{
    let ghost all = places(points@);
    let n: usize = points.len();
    let mut unique: Vec<WatchedPoint> = Vec::new();
    proof {
        assert(all.take(0) =~= Seq::<Place>::empty());
        assert(trimmed_places(all.take(0)) =~= Seq::<Place>::empty());
        assert(places(unique@) =~= Seq::<Place>::empty());
    }
    for i in 0..n
        invariant
            all == places(points@),
            n == points@.len(),
            first_fault(all.take(i as int)) is None,
            places(unique@) == distinct(trimmed_places(all.take(i as int))),
    {
        let point = WatchedPoint {
            pref: trim(points[i].pref.as_str()),
            name: trim(points[i].name.as_str()),
            label: trim(points[i].label.as_str()),
        };
        proof {
            assert(all.take(i + 1).drop_last() =~= all.take(i as int));
            assert(all.take(i + 1).last() == all[i as int]);
            assert(all[i as int] == points@[i as int].place());
        }
        let ghost p = point.place();
        if point.pref.as_str().unicode_len() == 0 || point.name.as_str().unicode_len() == 0 {
            proof {
                lemma_first_fault(all, i + 1);
            }
            return Err((i as u64 + 1, PlaceFault::Missing));
        }
        if !(is_presentable(point.pref.as_str()) && is_presentable(point.name.as_str())
            && is_presentable(point.label.as_str())) {
            proof {
                lemma_first_fault(all, i + 1);
            }
            return Err((i as u64 + 1, PlaceFault::Malformed));
        }
        proof {
            assert(trimmed_places(all.take(i + 1)) =~= trimmed_places(all.take(i as int)).push(p));
            lemma_distinct_push(trimmed_places(all.take(i as int)), p);
        }
        if !holds_place(&unique, &point) {
            let ghost before = places(unique@);
            unique.push(point);
            assert(places(unique@) =~= before.push(p));
        }
    }
    assert(all.take(n as int) =~= all);
    Ok(unique)
}

/// A fault that a part of a list shows is the fault of the whole list.
proof fn lemma_first_fault(points: Seq<Place>, n: int)
    requires
        0 <= n <= points.len(),
        first_fault(points.take(n)) is Some,
    ensures
        first_fault(points) == first_fault(points.take(n)),
    decreases points.len() - n,
{
    if n < points.len() {
        assert(points.take(n + 1).drop_last() =~= points.take(n));
        lemma_first_fault(points, n + 1);
    } else {
        assert(points.take(n) =~= points);
    }
}

/// Without a fault in the list there is none in any of its places, and the reverse.
proof fn lemma_no_fault(points: Seq<Place>)
    ensures
        first_fault(points) is None <==> forall|i: int|
            0 <= i < points.len() ==> place_fault(trimmed_place(#[trigger] points[i])) is None,
    decreases points.len(),
{
    if points.len() > 0 {
        lemma_no_fault(points.drop_last());
        assert forall|i: int| 0 <= i < points.len() - 1 implies points[i]
            == #[trigger] points.drop_last()[i] by {}
        if first_fault(points) is None {
            assert forall|i: int| 0 <= i < points.len() implies place_fault(
                trimmed_place(#[trigger] points[i]),
            ) is None by {
                if i < points.len() - 1 {
                    assert(points.drop_last()[i] == points[i]);
                }
            }
        }
    }
}

/// Places that were normalized once are accepted and left as they are when they are
/// normalized again.
pub proof fn lemma_normalized_places_stay(points: Seq<Place>)
    requires
        first_fault(points) is None,
    ensures
        ({
            let once = distinct(trimmed_places(points));
            first_fault(once) is None && distinct(trimmed_places(once)) == once
        }),
{
    let all = trimmed_places(points);
    let once = distinct(all);
    lemma_distinct(all);
    lemma_no_fault(points);
    assert forall|i: int| 0 <= i < once.len() implies place_fault(
        trimmed_place(#[trigger] once[i]),
    ) is None && trimmed_place(once[i]) == once[i] by {
        assert(once.contains(once[i]));
        assert(all.contains(once[i]));
        let j = choose|j: int| 0 <= j < all.len() && all[j] == once[i];
        assert(once[i] == trimmed_place(points[j]));
        lemma_trimmed_twice(points[j].0);
        lemma_trimmed_twice(points[j].1);
        lemma_trimmed_twice(points[j].2);
    }
    lemma_no_fault(once);
    assert(trimmed_places(once) =~= once);
    lemma_distinct_fixed(once);
}

/// What an error says does not depend on the URLs: two environments that set the same
/// variables, and leave the same ones blank, give the same fault.
pub proof fn lemma_faults_hide_urls(
    raw: TomlConfig,
    a: Seq<(String, String)>,
    b: Seq<(String, String)>,
)
    requires
        forall|key: Seq<char>|
            {
                &&& (#[trigger] variable(a, key) is Some <==> variable(b, key) is Some)
                &&& (variable(a, key) is Some ==> (blank(variable(a, key)->0) <==> blank(
                    variable(b, key)->0,
                )))
            },
    ensures
        config_fault(raw, a) == config_fault(raw, b),
{
    lemma_webhook_faults_hide_urls(raw.webhooks@, a, b);
    assert(variable(a, WS_URL_VARIABLE@) is Some <==> variable(b, WS_URL_VARIABLE@) is Some);
}

proof fn lemma_webhook_faults_hide_urls(
    webhooks: Seq<(String, TomlWebhookConfig)>,
    a: Seq<(String, String)>,
    b: Seq<(String, String)>,
)
    requires
        forall|key: Seq<char>|
            {
                &&& (#[trigger] variable(a, key) is Some <==> variable(b, key) is Some)
                &&& (variable(a, key) is Some ==> (blank(variable(a, key)->0) <==> blank(
                    variable(b, key)->0,
                )))
            },
    ensures
        first_webhook_fault(webhooks, a) == first_webhook_fault(webhooks, b),
    decreases webhooks.len(),
{
    if webhooks.len() > 0 {
        lemma_webhook_faults_hide_urls(webhooks.drop_last(), a, b);
        let key = trimmed(webhooks.last().1.webhook_url_env@);
        assert(variable(a, key) is Some <==> variable(b, key) is Some);
    }
}

} // verus!
