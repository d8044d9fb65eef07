use quake_alert::cursors::{
    after_offer, catch_up, missed_since, plan_catch_up, postpone_catch_up, CatchUp, Cursors, Offer,
};
use quake_alert::feed::{
    dispatch, event_id, is_catch_up_target, is_rate_limited, is_stale, kind_of, message_id,
    next_backoff, reconnect, route_text, route_value, session_step, EewQueue, Incoming, Kind,
    Route, SessionEvent, SessionStep, BACKOFF_MAX, BACKOFF_MIN, BACKOFF_RATE_LIMITED,
    CATCH_UP_TARGETS, CODE_EEW, CODE_JMA_QUAKE, CODE_TSUNAMI, EEW_MAX_AGE, EEW_QUEUE_CAPACITY,
    IDLE_TIMEOUT, STABLE_CONNECTION,
};
use quake_alert::json::read_list;
use serde_json::Value;
use tokio_tungstenite::tungstenite::http::{Response, StatusCode};
use tokio_tungstenite::tungstenite::Error;

fn parse(text: &str) -> Value {
    serde_json::from_str(text).unwrap()
}

/// 新しい順に並んだ履歴を作る。
fn history(ids: &[&str]) -> Vec<Value> {
    ids.iter()
        .map(|id| parse(&format!(r#"{{"id":"{id}","code":551}}"#)))
        .collect()
}

fn ids_of(items: &[&Value]) -> Vec<String> {
    items
        .iter()
        .map(|v| message_id(v).unwrap().to_string())
        .collect()
}

/// 現在の基準で拾い直しの対象を求める（地震情報のみ）。
fn plan<'a>(items: &'a [Value], cursors: &Cursors) -> Vec<&'a Value> {
    match plan_catch_up(items, cursors.baseline(CODE_JMA_QUAKE)) {
        CatchUp::Missed(missed) => missed,
        CatchUp::Rebase => panic!("基準があるので拾い直しの対象になるはず"),
    }
}

fn incoming(code: i32, id: &str) -> Incoming {
    Incoming {
        code,
        id: Some(id.to_string()),
        text: String::new(),
    }
}

#[test]
fn backoff_stays_short_enough_for_eew() {
    let mut wait = BACKOFF_MIN;
    for _ in 0..10 {
        wait = next_backoff(wait);
    }
    assert_eq!(wait, BACKOFF_MAX);
    // 緊急地震速報は数十秒で終わるため、再接続の待ちが長すぎてはいけない。
    assert!(BACKOFF_MAX <= 10_000);
}

#[test]
fn backoff_doubles_up_to_its_limit() {
    assert_eq!(next_backoff(500), 1_000);
    assert_eq!(next_backoff(4_000), 8_000);
    assert_eq!(next_backoff(5_000), 8_000);
    assert_eq!(next_backoff(u64::MAX), 8_000);
}

#[test]
fn reconnecting_waits_by_how_the_last_connection_went() {
    assert_eq!(reconnect(2_000, 0, false), (2_000, 4_000));
    assert_eq!(reconnect(8_000, 0, false), (8_000, 8_000));
    // しばらく保っていた接続の後は、待ち時間を戻す。
    assert_eq!(reconnect(8_000, STABLE_CONNECTION, false), (500, 1_000));
    assert_eq!(
        reconnect(8_000, STABLE_CONNECTION - 1, false),
        (8_000, 8_000)
    );
    assert_eq!(reconnect(500, 0, true), (BACKOFF_RATE_LIMITED, 1_000));
}

fn status_of(error: &Error) -> Option<u16> {
    match error {
        Error::Http(response) => Some(response.status().as_u16()),
        _ => None,
    }
}

#[test]
fn rate_limited_handshake_is_detected() {
    // 1 IP から同時に張れる接続は1本だけで、2本目の握手は 429 で拒否される。
    let too_many = Response::builder()
        .status(StatusCode::TOO_MANY_REQUESTS)
        .body(None)
        .unwrap();
    assert!(is_rate_limited(status_of(&Error::Http(too_many))));

    let bad_gateway = Response::builder()
        .status(StatusCode::BAD_GATEWAY)
        .body(None)
        .unwrap();
    assert!(!is_rate_limited(status_of(&Error::Http(bad_gateway))));
    assert!(!is_rate_limited(status_of(&Error::ConnectionClosed)));
}

#[test]
fn idle_timeout_exceeds_server_ping_interval() {
    // サーバの ping は実測でおよそ54秒間隔。正常な接続を誤って切らないよう、
    // しきい値はそれより十分長く取る。
    assert!(IDLE_TIMEOUT >= 70);
}

#[test]
fn dispatch_routes_by_code() {
    let mut eew_queue = EewQueue::new();
    let mut other = Vec::new();
    for text in [
        r#"{"code":556,"_id":"e1","issue":{"eventId":"ev1"}}"#,
        r#"{"code":551,"_id":"q1"}"#,
        r#"{"code":552,"_id":"t1"}"#,
        // 対象外の code、壊れた JSON、eventId の無い緊急地震速報は捨てる。
        r#"{"code":555}"#,
        "not json",
        r#"{"code":556,"_id":"e2"}"#,
    ] {
        other.extend(dispatch(text, 0, &mut eew_queue));
    }

    // 緊急地震速報は地震情報と別の待ち行列に入り、地図生成に待たされない。
    assert_eq!(eew_queue.len(), 1);
    assert_eq!(eew_queue.get(0).unwrap().event_id, "ev1");

    assert_eq!(other.len(), 2);
    assert_eq!(
        (other[0].code, other[0].id.as_deref()),
        (CODE_JMA_QUAKE, Some("q1"))
    );
    assert_eq!(
        (other[1].code, other[1].id.as_deref()),
        (CODE_TSUNAMI, Some("t1"))
    );
    assert_eq!(other[1].text, r#"{"code":552,"_id":"t1"}"#);
}

#[test]
fn codes_are_told_apart() {
    assert_eq!(kind_of(CODE_JMA_QUAKE), Some(Kind::Quake));
    assert_eq!(kind_of(CODE_TSUNAMI), Some(Kind::Tsunami));
    assert_eq!(kind_of(CODE_EEW), Some(Kind::Eew));
    assert_eq!(kind_of(555), None);
    // code は 32 ビットに切り詰めて比べる。
    assert!(matches!(
        route_text(r#"{"code":4294967847,"id":"q"}"#),
        Route::Worker { .. }
    ));
    assert!(matches!(
        route_text(r#"{"code":-4294966745}"#),
        Route::Worker { .. }
    ));
    assert!(matches!(route_text(r#"{"code":551.0}"#), Route::Ignored));
    assert!(matches!(route_text(r#"{"code":"551"}"#), Route::Ignored));
    assert!(matches!(
        route_text(r#"{"code":18446744073709551615}"#),
        Route::Ignored
    ));
    assert!(matches!(
        route_value(&parse(r#"{"code":556,"issue":{"eventId":""}}"#), ""),
        Route::Ignored
    ));
    assert_eq!(
        event_id(&parse(r#"{"issue":{"eventId":"ev"}}"#)),
        Some("ev")
    );
    assert_eq!(event_id(&parse(r#"{"issue":"ev"}"#)), None);
}

#[test]
fn missed_since_returns_newer_items_oldest_first() {
    // 履歴は新しい順。WebSocket は `_id`、履歴 API は `id` で同じ値を返す。
    let items = history(&["n3", "n2", "n1", "seen", "older"]);

    let missed = missed_since(&items, "seen").unwrap();
    assert_eq!(ids_of(&missed), ["n1", "n2", "n3"]);

    // 最新まで処理済みなら拾い直すものは無い。
    assert!(missed_since(&items, "n3").unwrap().is_empty());

    // 基準が履歴に無い場合は、どこまで届いていたか分からないので拾い直さない。
    // 全件を流すと過去の地震を大量に投稿してしまう。
    assert!(missed_since(&items, "unknown").is_none());
}

#[test]
fn cursor_advances_only_for_notified_messages() {
    let mut cursors = Cursors::new();
    for code in [CODE_JMA_QUAKE, CODE_TSUNAMI] {
        cursors.rebase(code, None);
    }

    // 通知まで終えた分だけ記録する（ワーカーは失敗時に呼ばない）。
    cursors.record_handled(&incoming(CODE_JMA_QUAKE, "q1"));
    cursors.record_handled(&incoming(CODE_TSUNAMI, "t1"));
    // 緊急地震速報は拾い直しの対象外なので基準を持たない。
    cursors.record_handled(&incoming(CODE_EEW, "e1"));

    assert_eq!(
        cursors.baseline(CODE_JMA_QUAKE),
        Some(Some("q1".to_string()))
    );
    assert_eq!(cursors.baseline(CODE_TSUNAMI), Some(Some("t1".to_string())));
    assert_eq!(cursors.baseline(CODE_EEW), None);
}

#[test]
fn failed_notification_stays_in_the_catch_up_range() {
    // 送信に失敗した報は基準にならないので、次の履歴確認で拾い直される。
    // 待ち行列に入れた時点で基準を進めると、この経路で通知が永久に失われる。
    let items = history(&["q3", "q2", "q1", "base"]);
    let mut cursors = Cursors::new();
    cursors.rebase(CODE_JMA_QUAKE, Some("base".to_string()));

    let missed = plan(&items, &cursors);
    assert_eq!(ids_of(&missed), ["q1", "q2", "q3"]);

    // q1 の通知だけ成功した状態。残りは次回も対象に残る。
    cursors.record_handled(&incoming(CODE_JMA_QUAKE, "q1"));
    assert_eq!(ids_of(&plan(&items, &cursors)), ["q2", "q3"]);

    // 最新まで通知できたら拾い直すものは無くなる。
    cursors.record_handled(&incoming(CODE_JMA_QUAKE, "q2"));
    cursors.record_handled(&incoming(CODE_JMA_QUAKE, "q3"));
    assert!(plan(&items, &cursors).is_empty());
}

#[test]
fn eew_queue_keeps_only_the_latest_report_per_event() {
    // 続報は前の報を差し替える。処理が遅れても投稿するのは常に最新の予想で、
    // 古い続報を後から投稿し直すことがない。
    let mut queue = EewQueue::new();
    for serial in 1..=50 {
        let text = format!(
            r#"{{"code":556,"_id":"e{serial}","issue":{{"eventId":"ev1","serial":"{serial}"}}}}"#
        );
        assert!(dispatch(&text, serial, &mut queue).is_none());
    }
    // 別の地震は別の枠になる。
    assert!(dispatch(
        r#"{"code":556,"_id":"x1","issue":{"eventId":"ev2"}}"#,
        51,
        &mut queue,
    )
    .is_none());

    assert_eq!(queue.len(), 2, "地震ごとに1件だけ持つ");
    assert_eq!(queue.get(0).unwrap().event_id, "ev1");
    assert_eq!(
        queue.get(0).unwrap().message.id.as_deref(),
        Some("e50"),
        "最新の報が残る"
    );
    assert_eq!(queue.get(0).unwrap().received, 50);
}

#[test]
fn eew_queue_bounds_the_number_of_events() {
    // 同時にこれだけの地震が進行することは無いが、際限なく積み上がらないこと。
    let mut queue = EewQueue::new();
    for event in 0..(EEW_QUEUE_CAPACITY + 10) {
        queue.push(format!("ev{event}"), 0, incoming(CODE_EEW, "e"));
    }
    assert_eq!(queue.len(), EEW_QUEUE_CAPACITY);
    // 捨てられるのは最も古い＝最も価値の低い報。
    assert_eq!(queue.get(0).unwrap().event_id, "ev10");
}

#[test]
fn eew_queue_hands_out_the_oldest_first() {
    let mut queue = EewQueue::new();
    assert!(queue.pop().is_none());
    queue.push("a".to_string(), 1, incoming(CODE_EEW, "a1"));
    queue.push("b".to_string(), 2, incoming(CODE_EEW, "b1"));
    queue.push("a".to_string(), 3, incoming(CODE_EEW, "a2"));
    let first = queue.pop().unwrap();
    assert_eq!((first.event_id.as_str(), first.received), ("a", 3));
    assert_eq!(first.message.id.as_deref(), Some("a2"));
    assert_eq!(queue.pop().unwrap().event_id, "b");
    assert!(queue.pop().is_none());
    assert!(!is_stale(EEW_MAX_AGE));
    assert!(is_stale(EEW_MAX_AGE + 1));
}

#[test]
fn full_queue_records_a_failure_so_the_report_is_picked_up_again() {
    // 地震情報・津波予報は履歴から拾い直せるので、満杯なら捨ててよい。
    // ただし失敗として記録しないと、基準が飛び越して永久に失われる。
    let items = history(&["q2", "q1", "base"]);
    let mut cursors = Cursors::new();
    cursors.rebase(CODE_JMA_QUAKE, Some("base".to_string()));

    assert!(after_offer(
        &mut cursors,
        &incoming(CODE_JMA_QUAKE, "q1"),
        Offer::Accepted
    ));
    assert!(after_offer(
        &mut cursors,
        &incoming(CODE_JMA_QUAKE, "q2"),
        Offer::Full
    ));

    cursors.record_handled(&incoming(CODE_JMA_QUAKE, "q1"));
    assert_eq!(ids_of(&plan(&items, &cursors)), ["q1", "q2"]);

    // ワーカーがいなければ続けられない。
    assert!(!after_offer(
        &mut cursors,
        &incoming(CODE_JMA_QUAKE, "q3"),
        Offer::Closed
    ));
}

#[test]
fn later_success_does_not_skip_over_a_failed_report() {
    // q1 成功 → q2 失敗 → q3 成功。q3 まで基準を進めると q2 が拾い直しの
    // 対象から外れ、通知が永久に失われる。
    let items = history(&["q3", "q2", "q1", "base"]);
    let mut cursors = Cursors::new();
    cursors.rebase(CODE_JMA_QUAKE, Some("base".to_string()));

    cursors.settle(&incoming(CODE_JMA_QUAKE, "q1"), true);
    cursors.settle(&incoming(CODE_JMA_QUAKE, "q2"), false);
    cursors.settle(&incoming(CODE_JMA_QUAKE, "q3"), true);
    assert_eq!(ids_of(&plan(&items, &cursors)), ["q2", "q3"]);

    // 拾い直しで q2 も失敗し続ける間は、対象から外れない。
    cursors.record_failed(&incoming(CODE_JMA_QUAKE, "q2"));
    cursors.record_handled(&incoming(CODE_JMA_QUAKE, "q3"));
    assert_eq!(ids_of(&plan(&items, &cursors)), ["q2", "q3"]);

    // q2 を通知できたら穴が埋まり、その先へ進める。
    cursors.record_handled(&incoming(CODE_JMA_QUAKE, "q2"));
    assert_eq!(ids_of(&plan(&items, &cursors)), ["q3"]);
    cursors.record_handled(&incoming(CODE_JMA_QUAKE, "q3"));
    assert!(plan(&items, &cursors).is_empty());
}

#[test]
fn pending_failure_is_visible_until_the_gap_is_filled() {
    // 接続が続いていても拾い直しに行くかどうかの判断に使う。
    let mut cursors = Cursors::new();
    cursors.rebase(CODE_TSUNAMI, None);
    assert!(!cursors.has_failures());

    cursors.record_failed(&incoming(CODE_TSUNAMI, "t1"));
    assert!(cursors.has_failures());

    // 別の報を通知できても、穴が埋まるまでは残り続ける。
    cursors.record_handled(&incoming(CODE_TSUNAMI, "t2"));
    assert!(cursors.has_failures());

    cursors.record_handled(&incoming(CODE_TSUNAMI, "t1"));
    assert!(!cursors.has_failures());
}

#[test]
fn failed_history_lookup_keeps_asking_for_a_catch_up() {
    // 履歴を取れなかったこと自体を覚えておかないと、基準を持っている種別では
    // 確認し直す理由が無くなり、履歴にしか無い報を次の切断まで拾えない。
    let mut cursors = Cursors::new();
    for (code, _) in CATCH_UP_TARGETS {
        cursors.rebase(code, Some("base".to_string()));
    }
    assert!(!cursors.needs_catch_up());

    cursors.mark_catch_up_pending(CODE_TSUNAMI);
    assert!(cursors.needs_catch_up(), "取得できるまで確認し直す");

    cursors.clear_catch_up_pending(CODE_TSUNAMI);
    assert!(!cursors.needs_catch_up());
}

#[test]
fn missing_baseline_keeps_asking_for_a_catch_up() {
    // 初回の履歴取得に失敗すると基準が空のままになる。放置すると次の再接続まで
    // 拾い直しに行かず、その間の取りこぼしを拾えない。
    let mut cursors = Cursors::new();
    assert!(cursors.needs_catch_up(), "基準が無いなら取りに行く");

    // ライブの報を処理しただけでは基準は確立しない。
    cursors.record_handled(&incoming(CODE_JMA_QUAKE, "q1"));
    assert!(cursors.needs_catch_up());

    // 履歴を取れて初めて基準が定まり、以後は失敗が無い限り取りに行かない。
    for (code, _) in CATCH_UP_TARGETS {
        cursors.rebase(code, None);
    }
    assert!(!cursors.needs_catch_up());
}

#[test]
fn startup_does_not_replay_past_reports() {
    // 起動直後は基準を取るだけ。過去の分をまとめて投稿しない。
    let items = history(&["q2", "q1"]);
    assert!(matches!(plan_catch_up(&items, None), CatchUp::Rebase));
}

#[test]
fn empty_history_at_startup_does_not_swallow_later_reports() {
    // 津波予報の履歴は平時は空。空を「最新まで処理済み」と同一視すると、
    // 切断中に発表された分を起動前の分として捨ててしまう。
    let mut cursors = Cursors::new();
    assert!(matches!(
        plan_catch_up(&[], cursors.baseline(CODE_TSUNAMI)),
        CatchUp::Rebase
    ));
    cursors.rebase(CODE_TSUNAMI, None);

    // その後に発表された分はすべて取りこぼし扱いになる。
    let items = history(&["t2", "t1"]);
    let CatchUp::Missed(missed) = plan_catch_up(&items, cursors.baseline(CODE_TSUNAMI)) else {
        panic!("拾い直しの対象になるはず");
    };
    assert_eq!(ids_of(&missed), ["t1", "t2"]);
}

#[test]
fn unknown_cursor_rebases_instead_of_replaying_everything() {
    // 基準が履歴に無い場合、どこまで届いていたか分からない。全件を流すと
    // 過去の分を大量に投稿してしまうため、拾い直さず基準を取り直す。
    let items = history(&["q3", "q2", "q1"]);
    let previous = Some(Some("知らない基準".to_string()));
    assert!(matches!(plan_catch_up(&items, previous), CatchUp::Rebase));
}

#[test]
fn catch_up_targets_exclude_eew() {
    // 地震情報と津波予報は遅れて届いても意味があるが、緊急地震速報は
    // 揺れる前に知らせる情報なので、終わった後に流さない。
    assert!(is_catch_up_target(CODE_JMA_QUAKE));
    assert!(is_catch_up_target(CODE_TSUNAMI));
    assert!(!is_catch_up_target(CODE_EEW));

    // 拾い直す種別には履歴 API の URL が対応している。
    for (code, url) in CATCH_UP_TARGETS {
        assert!(
            url.contains(&format!("codes={code}")),
            "{code} の URL: {url}"
        );
    }
}

#[test]
fn catching_up_goes_from_the_baseline_to_the_newest() {
    let mut cursors = Cursors::new();
    // 初回は基準を取るだけ。
    let first = read_list(r#"[{"id":"b","code":551},{"id":"a","code":551}]"#).unwrap();
    assert!(catch_up(&mut cursors, CODE_JMA_QUAKE, Some(&first)).is_empty());
    assert_eq!(
        cursors.baseline(CODE_JMA_QUAKE),
        Some(Some("b".to_string()))
    );
    // 取得に失敗したら、やり残しとして覚えておく。
    cursors.rebase(CODE_TSUNAMI, None);
    assert!(!cursors.needs_catch_up());
    assert!(catch_up(&mut cursors, CODE_JMA_QUAKE, None).is_empty());
    assert!(cursors.needs_catch_up());
    // 次に取れた履歴から、基準より新しいものを古い順に拾う。
    let next = read_list(r#"[{"id":"d","n":2.50},{"_id":"c"},{"id":"b"}]"#).unwrap();
    let missed = catch_up(&mut cursors, CODE_JMA_QUAKE, Some(&next));
    let texts: Vec<_> = missed.iter().map(|m| m.text.as_str()).collect();
    assert_eq!(texts, [r#"{"_id":"c"}"#, r#"{"id":"d","n":2.5}"#]);
    assert!(missed.iter().all(|m| m.code == CODE_JMA_QUAKE));
    assert!(!cursors.needs_catch_up());
    // 処理し終えるまで基準は動かず、終えれば拾うものは無くなる。
    for message in &missed {
        cursors.settle(message, true);
    }
    assert!(catch_up(&mut cursors, CODE_JMA_QUAKE, Some(&next)).is_empty());
    // 基準が見つからなければ取り直す。
    let other = history(&["z", "y"]);
    assert!(catch_up(&mut cursors, CODE_JMA_QUAKE, Some(&other)).is_empty());
    assert_eq!(
        cursors.baseline(CODE_JMA_QUAKE),
        Some(Some("z".to_string()))
    );
    // 待ち行列を空にできなければ、どの種別も見送る。
    postpone_catch_up(&mut cursors);
    assert!(cursors.needs_catch_up());
}

#[test]
fn lists_are_read_from_json_lists_only() {
    assert_eq!(read_list("[1, 2]").unwrap().len(), 2);
    assert!(read_list("{}").is_none());
    assert!(read_list("[1,").is_none());
}

#[test]
fn message_id_reads_both_key_names() {
    assert_eq!(message_id(&parse(r#"{"_id":"ws"}"#)), Some("ws"));
    assert_eq!(message_id(&parse(r#"{"id":"rest"}"#)), Some("rest"));
    assert_eq!(message_id(&parse("{}")), None);
    assert_eq!(message_id(&parse(r#"{"_id":1,"id":"rest"}"#)), None);
}

#[test]
fn session_steps_follow_the_events() {
    let mut queue = EewQueue::new();
    let mut cursors = Cursors::new();
    let step = session_step(SessionEvent::Idle, 0, &mut queue, &cursors);
    let SessionStep::Fail(reason) = step else {
        panic!("無通信の接続は諦める");
    };
    assert_eq!(
        reason,
        "75 秒間受信がありません。接続が切れたとみなします"
    );
    assert!(matches!(
        session_step(SessionEvent::RetryTick, 0, &mut queue, &cursors),
        SessionStep::CatchUp
    ));
    for (code, _) in CATCH_UP_TARGETS {
        cursors.rebase(code, None);
    }
    assert!(matches!(
        session_step(SessionEvent::RetryTick, 0, &mut queue, &cursors),
        SessionStep::Continue
    ));
    let text = r#"{"code":551,"id":"q1"}"#.to_string();
    let step = session_step(SessionEvent::Text(text), 0, &mut queue, &cursors);
    assert!(matches!(step, SessionStep::Enqueue(m) if m.id.as_deref() == Some("q1")));
    let text = r#"{"code":556,"issue":{"eventId":"e"}}"#.to_string();
    let step = session_step(SessionEvent::Text(text), 7, &mut queue, &cursors);
    assert!(matches!(step, SessionStep::Continue));
    assert_eq!(queue.get(0).unwrap().received, 7);
    assert!(matches!(
        session_step(SessionEvent::Other, 0, &mut queue, &cursors),
        SessionStep::Continue
    ));
    assert!(matches!(
        session_step(SessionEvent::Close, 0, &mut queue, &cursors),
        SessionStep::Stop
    ));
    assert!(matches!(
        session_step(SessionEvent::End, 0, &mut queue, &cursors),
        SessionStep::Stop
    ));
}
