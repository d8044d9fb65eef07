//! What is promised of the settings: which are accepted, and what becomes of them.

use vstd::prelude::*;

use crate::config::{
    blank, feed_url, first_fault, first_unknown, first_webhook_fault, place_fault, places,
    trimmed_place, trimmed_places, variable, webhook_fault, Config, ConfigError, Fault, Place,
    PlaceFault, TomlConfig, TomlWebhookConfig, WatchedPoint, WebhookConfig,
};
use crate::laws::texts::{
    lemma_repetitions_are_left_out, lemma_trimming_takes_white_space_only, once_each,
};
use crate::text::{is_control_char, is_white, trimmed};

verus! {

/// The value of a variable: that of its first entry.
pub open spec fn is_set_to(env: Seq<(String, String)>, key: Seq<char>, i: int) -> bool {
    &&& 0 <= i < env.len()
    &&& env[i].0@ == key
    &&& forall|j: int| 0 <= j < i ==> (#[trigger] env[j]).0@ != key
}

/// A variable has the value of its first entry, and none if it has no entry.
pub proof fn lemma_variables_have_their_first_value(env: Seq<(String, String)>, key: Seq<char>)
    ensures
        match variable(env, key) {
            Some(value) => exists|i: int| #[trigger] is_set_to(env, key, i) && env[i].1@ == value,
            None => forall|i: int| 0 <= i < env.len() ==> (#[trigger] env[i]).0@ != key,
        },
    decreases env.len(),
{
    if env.len() > 0 {
        if env[0].0@ == key {
            assert(is_set_to(env, key, 0));
        } else {
            let rest = env.drop_first();
            lemma_variables_have_their_first_value(rest, key);
            assert forall|i: int| 1 <= i < env.len() implies #[trigger] env[i] == rest[i - 1] by {}
            match variable(rest, key) {
                Some(value) => {
                    let i = choose|i: int|
                        #[trigger] is_set_to(rest, key, i) && rest[i].1@ == value;
                    assert forall|j: int| 0 <= j < i + 1 implies (#[trigger] env[j]).0@ != key by {
                        if j > 0 {
                            assert(env[j] == rest[j - 1]);
                        }
                    }
                    assert(env[i + 1] == rest[i]);
                    assert(is_set_to(env, key, i + 1));
                },
                None => {},
            }
        }
    }
}

/// Nothing but white space.
pub open spec fn all_white(s: Seq<char>) -> bool {
    forall|i: int| 0 <= i < s.len() ==> is_white(#[trigger] s[i])
}

/// A text is blank exactly if it is nothing but white space.
pub proof fn lemma_blank_is_white(s: Seq<char>)
    ensures
        blank(s) == all_white(s),
        trimmed(s).len() == 0 <==> all_white(s),
{
    let ends = lemma_trimming_takes_white_space_only(s);
    let t = trimmed(s);
    if t.len() == 0 {
        assert forall|i: int| 0 <= i < s.len() implies is_white(#[trigger] s[i]) by {}
    } else {
        assert(t[0] == s[ends.0]);
        assert(!is_white(s[ends.0]));
    }
}

/// A text that can be shown on one line.
pub open spec fn fits_a_line(s: Seq<char>) -> bool {
    s.len() <= 100 && forall|i: int| 0 <= i < s.len() ==> !is_control_char(#[trigger] s[i])
}

/// A place that can be watched: it has a prefecture and a name, and without the white space
/// around them its texts fit a line.
pub open spec fn can_be_watched(p: Place) -> bool {
    &&& !all_white(p.0)
    &&& !all_white(p.1)
    &&& fits_a_line(trimmed(p.0))
    &&& fits_a_line(trimmed(p.1))
    &&& fits_a_line(trimmed(p.2))
}

/// What is wrong with a place: that it lacks a prefecture or a name, or else that a text of it
/// does not fit a line.
pub proof fn lemma_what_is_wrong_with_a_place(p: Place)
    ensures
        ({
            let fault = place_fault(trimmed_place(p));
            &&& fault == Some(PlaceFault::Missing) <==> all_white(p.0) || all_white(p.1)
            &&& fault is None <==> can_be_watched(p)
        }),
{
    lemma_blank_is_white(p.0);
    lemma_blank_is_white(p.1);
}

/// The fault of a list of places is that of the first place with one, counted from 1.
pub proof fn lemma_the_first_bad_place_is_reported(points: Seq<Place>)
    ensures
        match first_fault(points) {
            Some((position, fault)) => {
                &&& 1 <= position <= points.len()
                &&& place_fault(trimmed_place(points[position - 1])) == Some(fault)
                &&& forall|j: int|
                    0 <= j < position - 1 ==> can_be_watched(#[trigger] points[j])
            },
            None => forall|j: int| 0 <= j < points.len() ==> can_be_watched(#[trigger] points[j]),
        },
    decreases points.len(),
{
    if points.len() > 0 {
        let rest = points.drop_last();
        lemma_the_first_bad_place_is_reported(rest);
        lemma_what_is_wrong_with_a_place(points.last());
        assert(points[rest.len() as int] == points.last());
        assert forall|j: int| 0 <= j < rest.len() implies points[j] == #[trigger] rest[j] by {}
        match first_fault(points) {
            Some((position, fault)) => {
                assert forall|j: int| 0 <= j < position - 1 implies can_be_watched(
                    #[trigger] points[j],
                ) by {
                    assert(rest[j] == points[j]);
                }
                if position <= rest.len() {
                    assert(points[position - 1] == rest[position - 1]);
                }
            },
            None => {
                assert forall|j: int| 0 <= j < points.len() implies can_be_watched(
                    #[trigger] points[j],
                ) by {
                    if j < rest.len() {
                        assert(rest[j] == points[j]);
                    }
                }
            },
        }
    }
}

/// One of the eight regions.
pub open spec fn is_one_of_the_regions(name: Seq<char>) -> bool {
    seq!["北海道"@, "東北"@, "関東"@, "中部"@, "近畿"@, "中国"@, "四国"@, "九州"@].contains(name)
}

proof fn lemma_regions(name: Seq<char>)
    ensures
        crate::intensity::is_region(name) == is_one_of_the_regions(name),
{
    let all = seq![
        "北海道"@,
        "東北"@,
        "関東"@,
        "中部"@,
        "近畿"@,
        "中国"@,
        "四国"@,
        "九州"@,
    ];
    assert(all[0] == "北海道"@ && all[1] == "東北"@ && all[2] == "関東"@ && all[3] == "中部"@);
    assert(all[4] == "近畿"@ && all[5] == "中国"@ && all[6] == "四国"@ && all[7] == "九州"@);
    if crate::intensity::is_region(name) {
        assert(all.contains(name));
    }
}

/// The first name that is no region is reported.
pub proof fn lemma_the_first_unknown_region_is_reported(entries: Seq<(String, i32)>)
    ensures
        match first_unknown(entries) {
            Some(region) => exists|i: int|
                0 <= i < entries.len() && (#[trigger] entries[i]).0@ == region
                    && !is_one_of_the_regions(region) && forall|j: int|
                    0 <= j < i ==> is_one_of_the_regions((#[trigger] entries[j]).0@),
            None => forall|i: int|
                0 <= i < entries.len() ==> is_one_of_the_regions((#[trigger] entries[i]).0@),
        },
    decreases entries.len(),
{
    if entries.len() > 0 {
        let rest = entries.drop_last();
        let n = rest.len() as int;
        lemma_the_first_unknown_region_is_reported(rest);
        lemma_regions(entries.last().0@);
        assert(entries[n] == entries.last());
        assert forall|j: int| 0 <= j < n implies entries[j] == #[trigger] rest[j] by {}
        match first_unknown(rest) {
            Some(region) => {
                let i = choose|i: int|
                    0 <= i < rest.len() && (#[trigger] rest[i]).0@ == region
                        && !is_one_of_the_regions(region) && forall|j: int|
                        0 <= j < i ==> is_one_of_the_regions((#[trigger] rest[j]).0@);
                assert(entries[i] == rest[i]);
                assert forall|j: int| 0 <= j < i implies is_one_of_the_regions(
                    (#[trigger] entries[j]).0@,
                ) by {
                    assert(rest[j] == entries[j]);
                }
            },
            None => {
                assert forall|j: int| 0 <= j < n implies is_one_of_the_regions(
                    (#[trigger] entries[j]).0@,
                ) by {
                    assert(rest[j] == entries[j]);
                }
            },
        }
    }
}

/// The settings of a webhook that are accepted: its variable is named, set and not blank, it
/// speaks of regions only, and its places can be watched.
pub open spec fn is_in_order(raw: TomlWebhookConfig, env: Seq<(String, String)>) -> bool {
    &&& !all_white(raw.webhook_url_env@)
    &&& exists|i: int|
        #[trigger] is_set_to(env, trimmed(raw.webhook_url_env@), i) && !all_white(env[i].1@)
    &&& forall|i: int|
        0 <= i < raw.region_min_scales.entries@.len() ==> is_one_of_the_regions(
            (#[trigger] raw.region_min_scales.entries@[i]).0@,
        )
    &&& forall|i: int|
        0 <= i < raw.watched_points@.len() ==> can_be_watched(
            (#[trigger] raw.watched_points@[i]).place(),
        )
}

/// A webhook is refused exactly if its settings are not in order, and the fault names the
/// webhook: first that no variable is named, then that it is not set, then a name that is no
/// region, then a place that cannot be watched.
pub proof fn lemma_which_webhooks_are_refused(
    name: Seq<char>,
    raw: TomlWebhookConfig,
    env: Seq<(String, String)>,
)
    ensures
        ({
            let fault = webhook_fault(name, raw, env);
            let key = trimmed(raw.webhook_url_env@);
            let set = exists|i: int| #[trigger] is_set_to(env, key, i) && !all_white(env[i].1@);
            &&& fault is None <==> is_in_order(raw, env)
            &&& all_white(raw.webhook_url_env@) ==> fault == Some(Fault::NoVariable(name))
            &&& !all_white(raw.webhook_url_env@) && !set ==> fault == Some(
                Fault::Unset(name, key),
            )
            &&& !all_white(raw.webhook_url_env@) && set ==> match first_unknown(
                raw.region_min_scales.entries@,
            ) {
                Some(region) => fault == Some(Fault::UnknownRegion(name, region)),
                None => match first_fault(places(raw.watched_points@)) {
                    Some((position, what)) => fault == Some(
                        Fault::BadPlace(name, position, what),
                    ),
                    None => fault is None,
                },
            }
        }),
{
    let key = trimmed(raw.webhook_url_env@);
    lemma_blank_is_white(raw.webhook_url_env@);
    lemma_variables_have_their_first_value(env, key);
    match variable(env, key) {
        Some(value) => {
            lemma_blank_is_white(value);
            let i = choose|i: int| #[trigger] is_set_to(env, key, i) && env[i].1@ == value;
            assert forall|k: int| #[trigger] is_set_to(env, key, k) implies k == i by {}
        },
        None => {},
    }
    lemma_the_first_unknown_region_is_reported(raw.region_min_scales.entries@);
    let all = places(raw.watched_points@);
    lemma_the_first_bad_place_is_reported(all);
    match first_fault(all) {
        Some((position, what)) => {
            lemma_what_is_wrong_with_a_place(all[position - 1]);
            assert(!can_be_watched(raw.watched_points@[position - 1].place()));
        },
        None => {
            assert forall|i: int| 0 <= i < raw.watched_points@.len() implies can_be_watched(
                (#[trigger] raw.watched_points@[i]).place(),
            ) by {
                assert(can_be_watched(all[i]));
            }
        },
    }
}

/// The fault of the webhooks is that of the first with one: that its name is blank, or else what
/// is wrong with its settings.
pub proof fn lemma_the_first_bad_webhook_is_reported(
    webhooks: Seq<(String, TomlWebhookConfig)>,
    env: Seq<(String, String)>,
)
    ensures
        match first_webhook_fault(webhooks, env) {
            Some(fault) => exists|i: int|
                #![trigger webhooks[i]]
                {
                    &&& 0 <= i < webhooks.len()
                    &&& fault == (if all_white(webhooks[i].0@) {
                        Fault::EmptyName
                    } else {
                        webhook_fault(webhooks[i].0@, webhooks[i].1, env)->0
                    })
                    &&& all_white(webhooks[i].0@) || !is_in_order(webhooks[i].1, env)
                    &&& forall|j: int|
                        0 <= j < i ==> !all_white((#[trigger] webhooks[j]).0@) && is_in_order(
                            webhooks[j].1,
                            env,
                        )
                },
            None => forall|j: int|
                0 <= j < webhooks.len() ==> !all_white((#[trigger] webhooks[j]).0@) && is_in_order(
                    webhooks[j].1,
                    env,
                ),
        },
    decreases webhooks.len(),
{
    if webhooks.len() > 0 {
        let rest = webhooks.drop_last();
        let n = rest.len() as int;
        lemma_the_first_bad_webhook_is_reported(rest, env);
        lemma_blank_is_white(webhooks.last().0@);
        lemma_which_webhooks_are_refused(webhooks.last().0@, webhooks.last().1, env);
        assert(webhooks[n] == webhooks.last());
        assert forall|j: int| 0 <= j < n implies webhooks[j] == #[trigger] rest[j] by {}
        match first_webhook_fault(rest, env) {
            Some(fault) => {
                let i = choose|i: int|
                    #![trigger rest[i]]
                    {
                        &&& 0 <= i < rest.len()
                        &&& fault == (if all_white(rest[i].0@) {
                            Fault::EmptyName
                        } else {
                            webhook_fault(rest[i].0@, rest[i].1, env)->0
                        })
                        &&& all_white(rest[i].0@) || !is_in_order(rest[i].1, env)
                        &&& forall|j: int|
                            0 <= j < i ==> !all_white((#[trigger] rest[j]).0@) && is_in_order(
                                rest[j].1,
                                env,
                            )
                    };
                assert(webhooks[i] == rest[i]);
                assert forall|j: int| 0 <= j < i implies !all_white((#[trigger] webhooks[j]).0@)
                    && is_in_order(webhooks[j].1, env) by {
                    assert(rest[j] == webhooks[j]);
                }
            },
            None => {
                assert forall|j: int| 0 <= j < n implies !all_white((#[trigger] webhooks[j]).0@)
                    && is_in_order(webhooks[j].1, env) by {
                    assert(rest[j] == webhooks[j]);
                }
            },
        }
    }
}

/// The feed is the one of the file, or else that of the environment, or else the official one.
pub proof fn lemma_which_feed_is_read(raw: TomlConfig, env: Seq<(String, String)>)
    ensures
        raw.ws_url matches Some(url) ==> feed_url(raw, env) == url@,
        raw.ws_url is None && variable(env, "P2PQUAKE_WS_URL"@) is Some ==> Some(
            feed_url(raw, env),
        ) == variable(env, "P2PQUAKE_WS_URL"@),
        raw.ws_url is None && variable(env, "P2PQUAKE_WS_URL"@) is None ==> feed_url(raw, env)
            == "wss://api.p2pquake.net/v2/ws"@,
{
}

/// Settings are accepted exactly if there is a webhook, the feed is not blank, and every webhook
/// has a name and is in order. Each webhook then has the URL that its variable is set to, its
/// places without white space around them and each once, and everything else as it was written.
pub proof fn lemma_which_settings_are_accepted(
    raw: TomlConfig,
    env: &[(String, String)],
    r: Result<Config, ConfigError>,
)
    requires
        call_ensures(Config::from_toml, (raw, env), r),
    ensures
        r is Ok <==> {
            &&& raw.webhooks@.len() > 0
            &&& !all_white(feed_url(raw, env@))
            &&& forall|j: int|
                0 <= j < raw.webhooks@.len() ==> !all_white((#[trigger] raw.webhooks@[j]).0@)
                    && is_in_order(raw.webhooks@[j].1, env@)
        },
        r matches Ok(config) ==> {
            &&& config.ws_url@ == feed_url(raw, env@)
            &&& config.webhooks@.len() == raw.webhooks@.len()
            &&& forall|i: int|
                0 <= i < config.webhooks@.len() ==> is_taken_over(
                    #[trigger] config.webhooks@[i],
                    raw.webhooks@[i].0@,
                    raw.webhooks@[i].1,
                    env@,
                )
        },
        r matches Err(e) ==> {
            &&& raw.webhooks@.len() == 0 ==> e.fault() == Fault::NoWebhooks
            &&& raw.webhooks@.len() > 0 && all_white(feed_url(raw, env@)) ==> e.fault()
                == Fault::EmptyWsUrl
            &&& raw.webhooks@.len() > 0 && !all_white(feed_url(raw, env@)) ==> Some(e.fault())
                == first_webhook_fault(raw.webhooks@, env@)
        },
{
    lemma_blank_is_white(feed_url(raw, env@));
    lemma_the_first_bad_webhook_is_reported(raw.webhooks@, env@);
    match r {
        Ok(config) => {
            assert forall|i: int| 0 <= i < config.webhooks@.len() implies is_taken_over(
                #[trigger] config.webhooks@[i],
                raw.webhooks@[i].0@,
                raw.webhooks@[i].1,
                env@,
            ) by {
                let key = trimmed(raw.webhooks@[i].1.webhook_url_env@);
                lemma_variables_have_their_first_value(env@, key);
                let points = raw.webhooks@[i].1.watched_points@;
                assert(written_places(points) =~= trimmed_places(places(points)));
                let held = config.webhooks@[i].watched_points@;
                assert(held_places(held) =~= places(held));
                lemma_repetitions_are_left_out(trimmed_places(places(points)));
            }
        },
        Err(_) => {},
    }
}

/// The places of a list as they were written, without the white space around their texts.
pub open spec fn written_places(points: Seq<WatchedPoint>) -> Seq<Place> {
    Seq::new(
        points.len(),
        |i: int| (trimmed(points[i].pref@), trimmed(points[i].name@), trimmed(points[i].label@)),
    )
}

/// The places of a list as they are.
pub open spec fn held_places(points: Seq<WatchedPoint>) -> Seq<Place> {
    Seq::new(points.len(), |i: int| (points[i].pref@, points[i].name@, points[i].label@))
}

/// A webhook has the settings that were written for it.
pub open spec fn is_taken_over(
    w: WebhookConfig,
    name: Seq<char>,
    raw: TomlWebhookConfig,
    env: Seq<(String, String)>,
) -> bool {
    &&& w.name@ == name
    &&& exists|i: int|
        #[trigger] is_set_to(env, trimmed(raw.webhook_url_env@), i) && env[i].1@ == w.webhook_url@
    &&& once_each(written_places(raw.watched_points@), held_places(w.watched_points@))
    &&& w.region_min_scales == raw.region_min_scales
    &&& w.other_min_scale == raw.other_min_scale
    &&& w.attach_map == raw.attach_map
    &&& w.tile_url_template == raw.tile_url_template
}

/// A preview uses the tiles of the webhook called main, or those of the first if none is; it
/// fails only where there is no webhook.
pub proof fn lemma_which_tiles_a_preview_uses(
    raw: &TomlConfig,
    r: Result<String, ConfigError>,
    i: int,
)
    requires
        call_ensures(Config::preview_tiles, (raw,), r),
        0 <= i < raw.webhooks@.len(),
    ensures
        raw.webhooks@[i].0@ == "main"@ && (forall|j: int|
            0 <= j < i ==> (#[trigger] raw.webhooks@[j]).0@ != "main"@) ==> (r matches Ok(t) && t@
            == raw.webhooks@[i].1.tile_url_template@),
        (forall|j: int| 0 <= j < raw.webhooks@.len() ==> (#[trigger] raw.webhooks@[j]).0@ != "main"@)
            ==> (r matches Ok(t) && t@ == raw.webhooks@[0].1.tile_url_template@),
{
    lemma_main(raw.webhooks@, "main"@);
}

proof fn lemma_main(webhooks: Seq<(String, TomlWebhookConfig)>, name: Seq<char>)
    ensures
        match crate::config::position_of(webhooks, name) {
            Some(i) => 0 <= i < webhooks.len() && webhooks[i].0@ == name && forall|j: int|
                0 <= j < i ==> (#[trigger] webhooks[j]).0@ != name,
            None => forall|j: int| 0 <= j < webhooks.len() ==> (#[trigger] webhooks[j]).0@ != name,
        },
    decreases webhooks.len(),
{
    if webhooks.len() > 0 {
        let rest = webhooks.drop_last();
        lemma_main(rest, name);
        assert(webhooks[rest.len() as int] == webhooks.last());
        assert forall|j: int| 0 <= j < rest.len() implies webhooks[j] == #[trigger] rest[j] by {}
        match crate::config::position_of(rest, name) {
            Some(i) => {
                assert(webhooks[i] == rest[i]);
                assert forall|j: int| 0 <= j < i implies (#[trigger] webhooks[j]).0@ != name by {
                    assert(rest[j] == webhooks[j]);
                }
            },
            None => {
                assert forall|j: int| 0 <= j < rest.len() implies (#[trigger] webhooks[j]).0@
                    != name by {
                    assert(rest[j] == webhooks[j]);
                }
            },
        }
    }
}

} // verus!
