use quake_alert::delivery::{
    after_attempt, classify, edit_payload, edit_url, id_in_answer, post_url, posted_message_id,
    retry_is_safe, Reply, Retry, Retryable, SendError, SendState, SendStep, RETRY_WAIT,
    RETRY_WAIT_MAX,
};
use serde_json::Value;

fn error(mark: Option<Retryable>) -> SendError {
    SendError {
        message: "失敗".to_string(),
        mark,
    }
}

#[test]
fn retry_is_safe_unless_the_post_may_have_landed() {
    assert!(!retry_is_safe(&error(Some(Retryable::Unsafe))));
    assert!(retry_is_safe(&error(Some(Retryable::Safe))));
    // 送信まで到達していない失敗には印が付かない。投げ直しても重複しない。
    assert!(retry_is_safe(&error(None)));
    assert_eq!(classify(true), Retryable::Unsafe);
    assert_eq!(classify(false), Retryable::Safe);
    assert_eq!(Retryable::Safe.label(), "再送可");
    assert_eq!(Retryable::Unsafe.label(), "再送不可（二重投稿のおそれ）");
}

fn answer(status: u16, after: Option<u128>) -> Reply {
    Reply::Answer {
        status,
        status_text: format!("{status} X"),
        after,
        after_text: "9s".to_string(),
        body: "本文".to_string(),
    }
}

fn failure(connect: bool) -> Reply {
    Reply::Failure {
        connect,
        text: "切れた".to_string(),
    }
}

fn given_up(step: SendStep) -> (String, Retryable) {
    match step {
        SendStep::GiveUp(e) => (e.message, e.mark.unwrap()),
        other => panic!("諦めるはず: {other:?}"),
    }
}

fn again(step: SendStep) -> (u128, SendState) {
    match step {
        SendStep::Again { wait, next } => (wait, next),
        other => panic!("試し直すはず: {other:?}"),
    }
}

#[test]
fn success_ends_the_attempts() {
    for status in [200, 204, 299] {
        let step = after_attempt(
            SendState::first(),
            answer(status, None),
            Retry::CreateOnce,
            "Webhook 投稿",
        );
        assert!(matches!(step, SendStep::Done(body) if body == "本文"));
    }
}

#[test]
fn rate_limits_are_waited_for_within_reason() {
    let first = SendState::first();
    assert_eq!((first.attempt, first.wait), (1, RETRY_WAIT));
    let step = after_attempt(first, answer(429, Some(1_000_000_000)), Retry::CreateOnce, "送信");
    let (wait, next) = again(step);
    assert_eq!(wait, 1_000_000_000);
    assert_eq!((next.attempt, next.wait), (2, 3_000_000_000));
    let step = after_attempt(next, answer(429, None), Retry::CreateOnce, "送信");
    let (wait, next) = again(step);
    assert_eq!(wait, 3_000_000_000);
    assert_eq!((next.attempt, next.wait), (3, RETRY_WAIT_MAX));
    // 最後の試行では諦める。
    let step = after_attempt(next, answer(429, None), Retry::CreateOnce, "送信");
    assert_eq!(
        given_up(step),
        ("送信がエラー応答: 429 X 本文".to_string(), Retryable::Safe)
    );
    // 長く待たされるなら諦める。
    let step = after_attempt(
        first,
        answer(429, Some(RETRY_WAIT_MAX + 1)),
        Retry::Idempotent,
        "送信",
    );
    assert_eq!(
        given_up(step),
        (
            "送信がレート制限: 9s の待機が必要なため諦めます".to_string(),
            Retryable::Safe
        )
    );
}

#[test]
fn server_errors_are_retried_only_for_edits() {
    let first = SendState::first();
    let (wait, next) = again(after_attempt(
        first,
        answer(503, None),
        Retry::Idempotent,
        "編集",
    ));
    assert_eq!((wait, next.wait), (RETRY_WAIT, 3 * RETRY_WAIT));
    let step = after_attempt(first, answer(503, None), Retry::CreateOnce, "投稿");
    assert_eq!(
        given_up(step),
        ("投稿がエラー応答: 503 X 本文".to_string(), Retryable::Unsafe)
    );
    // 4xx は投げ直しても変わらない。
    let step = after_attempt(first, answer(404, None), Retry::Idempotent, "編集");
    assert_eq!(given_up(step).1, Retryable::Safe);
}

#[test]
fn post_that_may_have_landed_is_not_safe_to_retry() {
    // 応答が返らない＝Discord 側で受理済みかもしれない。投げ直すと二重投稿。
    let step = after_attempt(
        SendState::first(),
        failure(false),
        Retry::CreateOnce,
        "Webhook 投稿",
    );
    let SendStep::GiveUp(error) = step else {
        panic!("諦めるはず");
    };
    assert!(!retry_is_safe(&error));
    assert_eq!(error.message, "Webhook 投稿: 切れた");
}

#[test]
fn post_that_never_connected_is_safe_to_retry() {
    // 接続できていないので、投げ直しても重複しない。
    let mut state = SendState::first();
    for attempt in 1..3 {
        assert_eq!(state.attempt, attempt);
        state = again(after_attempt(
            state,
            failure(true),
            Retry::CreateOnce,
            "Webhook 投稿",
        ))
        .1;
    }
    let SendStep::GiveUp(error) =
        after_attempt(state, failure(true), Retry::CreateOnce, "Webhook 投稿")
    else {
        panic!("最後の試行では諦める");
    };
    assert!(retry_is_safe(&error));
    // 編集は曖昧な失敗でも試し直す。
    again(after_attempt(
        SendState::first(),
        failure(false),
        Retry::Idempotent,
        "Webhook 編集",
    ));
}

#[test]
fn post_with_an_unreadable_response_is_not_safe_to_retry() {
    // 2xx が返っている＝投稿は作られている。応答の解析に失敗しただけなので、
    // 投げ直すと二重投稿になる。
    let error = posted_message_id("これは JSON ではない").unwrap_err();
    assert!(!retry_is_safe(&error), "解析に失敗しても投げ直さない");
    assert_eq!(error.message, "Webhook 応答の解析に失敗");

    // message id が無い応答も同じ。
    let error = posted_message_id("{}").unwrap_err();
    assert!(!retry_is_safe(&error), "message id が無くても投げ直さない");
    assert_eq!(error.message, "Webhook 応答に message id がありません");
    assert!(posted_message_id(r#"{"id":1}"#).is_err());

    assert_eq!(posted_message_id(r#"{"id":"m1"}"#).unwrap(), "m1");
    assert!(id_in_answer(None).is_err());
}

#[test]
fn requests_go_where_they_belong() {
    assert_eq!(post_url("https://x/hook"), "https://x/hook?wait=true");
    assert_eq!(
        edit_url("https://x/hook", "m1"),
        "https://x/hook/messages/m1"
    );
}

#[test]
fn edits_replace_the_attachments() {
    let payload: Value = serde_json::from_str(r#"{"embeds":[]}"#).unwrap();
    assert_eq!(
        edit_payload(&payload, true).to_string(),
        r#"{"attachments":[{"filename":"quake.webp","id":0}],"embeds":[]}"#
    );
    assert_eq!(
        edit_payload(&payload, false).to_string(),
        r#"{"attachments":[],"embeds":[]}"#
    );
    assert_eq!(edit_payload(&Value::from(3), true), Value::from(3));
}
