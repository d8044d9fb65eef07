use quake_alert::discord::{build_eew_payload, build_payload};
use quake_alert::geo::ObservationStation;
use quake_alert::intensity::RegionScales;
use quake_alert::model::{
    Earthquake, Eew, EewArea, EewEarthquake, EewIssue, Hypocenter, JmaQuake, Point, QuakeIssue,
    Tsunami, TsunamiArea, TsunamiIssue,
};
use quake_alert::notices::{
    eew_map, judge_eew, pick_eew, pick_prompt, pick_quake, pick_tsunami, prepare_eew,
    prepare_quake, prepare_tsunami, quake_map, record_eew, record_quake, record_tsunami, Action,
    EewDecision, MapRequest, Outcome,
};
use quake_alert::reading::Real;
use quake_alert::tracker::{
    signature_of, EewTracker, QuakePost, QuakeTracker, SeenIds, SEEN_ID_CAPACITY,
};
use serde_json::Value;
use std::collections::hash_map::DefaultHasher;
use std::hash::{Hash, Hasher};

fn quake(issue_type: &str, max_scale: i32) -> JmaQuake {
    JmaQuake {
        code: 551,
        issue: QuakeIssue {
            issue_type: issue_type.to_string(),
        },
        earthquake: Earthquake {
            time: "2026/06/28 05:21:00".to_string(),
            max_scale,
            hypocenter: Hypocenter::default(),
            ..Default::default()
        },
        points: vec![],
    }
}

fn payload(issue_type: &str, max_scale: i32, reason: &str) -> Value {
    build_payload(&quake(issue_type, max_scale), reason, false, false)
}

fn eew_area(pref: &str, name: &str, scale_from: i32, scale_to: i32) -> EewArea {
    EewArea {
        pref: pref.to_string(),
        name: name.to_string(),
        scale_from,
        scale_to,
    }
}

fn eew(areas: Vec<EewArea>) -> Eew {
    Eew {
        code: 556,
        cancelled: false,
        issue: EewIssue {
            event_id: "ev1".to_string(),
            serial: "1".to_string(),
            time: "2026/07/28 17:08:41".to_string(),
        },
        earthquake: EewEarthquake { hypocenter: Hypocenter::default() },
        areas,
    }
}

#[test]
fn signature_same_for_identical_content() {
    let a = payload("ScalePrompt", 45, "東北で最大震度5弱を観測");
    let b = payload("ScalePrompt", 45, "東北で最大震度5弱を観測");
    assert_eq!(signature_of(&a), signature_of(&b));
}

#[test]
fn signature_differs_when_scale_changes() {
    let a = payload("ScalePrompt", 45, "東北で最大震度5弱を観測");
    let b = payload("ScalePrompt", 50, "東北で最大震度5強を観測");
    assert_ne!(signature_of(&a), signature_of(&b));
}

#[test]
fn signature_differs_between_prompt_and_detail() {
    // 速報と詳報はタイトルが変わるためシグネチャも異なる（別管理の裏付け）。
    let prompt = payload("ScalePrompt", 45, "東北で最大震度5弱を観測");
    let detail = payload("DetailScale", 45, "東北で最大震度5弱を観測");
    assert_ne!(signature_of(&prompt), signature_of(&detail));
}

#[test]
fn signature_is_the_hash_of_the_compact_text() {
    let value = payload("DetailScale", 45, "理由");
    let mut hasher = DefaultHasher::new();
    value.to_string().hash(&mut hasher);
    assert_eq!(signature_of(&value), hasher.finish());
}

#[test]
fn tracker_keeps_prompt_and_detail_separately() {
    let mut tracker = QuakeTracker::new();
    let key = "2026/06/28 05:21:00";
    {
        let entry = tracker.entry(key);
        entry.prompt = Some(QuakePost {
            signature: 1,
            message_id: "p".to_string(),
        });
    }
    let entry = tracker.entry(key);
    assert!(entry.prompt.is_some());
    assert!(entry.detail.is_none());
}

#[test]
fn tracker_evicts_oldest_over_capacity() {
    let mut tracker = QuakeTracker::new();
    for i in 0..(SEEN_ID_CAPACITY + 5) {
        tracker.entry(&format!("key-{i}"));
    }
    assert_eq!(tracker.len(), SEEN_ID_CAPACITY);
    // 最初に入れたキーは退避されている。
    assert!(!tracker.contains_key("key-0"));
    assert!(tracker.contains_key("key-5"));
}

#[test]
fn eew_tracker_keeps_message_id_for_replacement() {
    // 続報で差し替えられるよう、eventId から message_id を引けること。
    let mut tracker = EewTracker::new();
    assert!(tracker.posted("ev1").is_none());
    tracker.insert(
        "ev1",
        QuakePost {
            signature: 1,
            message_id: "m1".to_string(),
        },
    );
    assert!(tracker.contains("ev1"));
    assert_eq!(tracker.posted("ev1"), Some(("m1".to_string(), 1)));

    // 差し替え後はシグネチャだけ更新し、message_id は保つ。
    tracker.update_signature("ev1", 2);
    assert_eq!(tracker.posted("ev1"), Some(("m1".to_string(), 2)));
    // 知らない地震の更新は何もしない。
    tracker.update_signature("ev9", 3);
    assert!(!tracker.contains("ev9"));
}

#[test]
fn eew_tracker_evicts_oldest_over_capacity() {
    let mut tracker = EewTracker::new();
    for i in 0..(SEEN_ID_CAPACITY + 5) {
        tracker.insert(
            &format!("ev-{i}"),
            QuakePost {
                signature: 0,
                message_id: String::new(),
            },
        );
    }
    assert_eq!(tracker.len(), SEEN_ID_CAPACITY);
    assert!(!tracker.contains("ev-0"));
    assert!(tracker.contains("ev-5"));
}

#[test]
fn eew_tracker_remembers_each_insertion() {
    let mut tracker = EewTracker::new();
    let post = |signature: u64| QuakePost {
        signature,
        message_id: "m".to_string(),
    };
    // 同じ地震を入れ直すと値は差し替わるが、最初の挿入の順番が退避の対象になる。
    tracker.insert("ev", post(1));
    tracker.insert("ev", post(2));
    assert_eq!(tracker.len(), 1);
    assert_eq!(tracker.posted("ev"), Some(("m".to_string(), 2)));
    for i in 0..SEEN_ID_CAPACITY - 2 {
        tracker.insert(&format!("x{i}"), post(0));
    }
    assert!(tracker.contains("ev"));
    tracker.insert("y", post(0));
    assert!(!tracker.contains("ev"));
}

#[test]
fn seen_ids_forget_the_oldest() {
    let mut seen = SeenIds::new();
    for i in 0..=SEEN_ID_CAPACITY {
        seen.mark(&format!("id{i}"));
        seen.mark(&format!("id{i}"));
    }
    assert_eq!(seen.len(), SEEN_ID_CAPACITY);
    assert!(!seen.contains("id0"));
    assert!(seen.contains("id1"));
    assert!(seen.contains("id256"));
}

fn eew_payload(areas: Vec<EewArea>, reason: &str) -> Value {
    build_eew_payload(&eew(areas), reason, false, false)
}

#[test]
fn eew_signature_changes_when_forecast_is_revised() {
    // 第1報「5弱程度以上」→ 第2報「5強」で内容が変わるため差し替えが走ること。
    // シグネチャが同じだと引き下げが反映されず、古い内容が残ってしまう。
    let first = eew_payload(
        vec![eew_area("熊本", "熊本県熊本", 45, 99)],
        "熊本県で予想最大震度5弱程度以上",
    );
    let second = eew_payload(
        vec![eew_area("熊本", "熊本県熊本", 50, 50)],
        "熊本県で予想最大震度5強",
    );
    assert_ne!(signature_of(&first), signature_of(&second));

    // 同じ内容の再送では差し替えない（EEWは数秒間隔で続報が来るため）。
    let resend = eew_payload(
        vec![eew_area("熊本", "熊本県熊本", 50, 50)],
        "熊本県で予想最大震度5強",
    );
    assert_eq!(signature_of(&second), signature_of(&resend));
}

#[test]
fn a_quake_is_posted_once_and_then_edited() {
    let mut tracker = QuakeTracker::new();
    let first = quake("DetailScale", 45);
    let notice = prepare_quake(&mut tracker, &first, "理由", &[], false, false);
    assert!(matches!(notice.action, Action::Post));
    assert_eq!(notice.payload, build_payload(&first, "理由", false, false));
    // 送れなければ、次もまた新規投稿になる。
    record_quake(&mut tracker, &first, notice.signature, Outcome::Failed);
    let notice = prepare_quake(&mut tracker, &first, "理由", &[], false, false);
    assert!(matches!(notice.action, Action::Post));
    record_quake(
        &mut tracker,
        &first,
        notice.signature,
        Outcome::Posted("m1".to_string()),
    );
    // 同じ内容は送らない。
    let notice = prepare_quake(&mut tracker, &first, "理由", &[], false, false);
    assert!(matches!(notice.action, Action::Skip));
    // 速報は別の枠。
    let prompt = quake("ScalePrompt", 45);
    let other = prepare_quake(&mut tracker, &prompt, "理由", &[], false, false);
    assert!(matches!(other.action, Action::Post));
    // 内容が変われば差し替える。
    let revised = quake("DetailScale", 50);
    let notice = prepare_quake(&mut tracker, &revised, "理由", &[], false, false);
    assert!(matches!(&notice.action, Action::Edit(id) if id == "m1"));
    record_quake(&mut tracker, &revised, notice.signature, Outcome::Edited);
    let notice = prepare_quake(&mut tracker, &revised, "理由", &[], false, false);
    assert!(matches!(notice.action, Action::Skip));
    // 発生時刻が不明なら覚えずに送る。
    let mut timeless = quake("DetailScale", 45);
    timeless.earthquake.time = String::new();
    let notice = prepare_quake(&mut tracker, &timeless, "理由", &[], false, false);
    assert!(matches!(notice.action, Action::Send));
    record_quake(
        &mut tracker,
        &timeless,
        notice.signature,
        Outcome::Posted("m2".to_string()),
    );
    assert_eq!(tracker.len(), 1);
    assert!(!tracker.contains_key(""));
}

#[test]
fn a_warning_below_the_threshold_still_replaces_a_posted_one() {
    let scales = RegionScales::new();
    let mut tracker = EewTracker::new();
    let strong = eew(vec![eew_area("熊本", "熊本県熊本", 50, 50)]);
    let weak = eew(vec![eew_area("熊本", "熊本県熊本", 40, 40)]);
    // 未通知のまま基準を下回る報は無視する。
    assert!(matches!(
        judge_eew(&tracker, &weak, &scales, 50, false),
        EewDecision::Ignore
    ));
    let EewDecision::Announce(reason) = judge_eew(&tracker, &strong, &scales, 50, false) else {
        panic!("基準を満たす報は通知する");
    };
    assert_eq!(reason, "熊本県で予想最大震度5強");
    let notice = prepare_eew(&tracker, &strong, &reason, &[], false, false);
    assert!(matches!(notice.action, Action::Post));
    record_eew(&mut tracker, "ev1", notice.signature, Outcome::Failed);
    assert!(!tracker.contains("ev1"));
    record_eew(
        &mut tracker,
        "ev1",
        notice.signature,
        Outcome::Posted("m1".to_string()),
    );
    let notice = prepare_eew(&tracker, &strong, &reason, &[], false, false);
    assert!(matches!(notice.action, Action::Skip));
    // 通知済みなら、基準を下回った続報でも差し替える。
    let EewDecision::Announce(reason) = judge_eew(&tracker, &weak, &scales, 50, false) else {
        panic!("通知済みの地震の続報は差し替える");
    };
    assert_eq!(reason, "熊本県で予想最大震度4");
    let notice = prepare_eew(&tracker, &weak, &reason, &[], false, false);
    assert!(matches!(&notice.action, Action::Edit(id) if id == "m1"));
    record_eew(&mut tracker, "ev1", notice.signature, Outcome::Edited);
    assert_eq!(
        tracker.posted("ev1"),
        Some(("m1".to_string(), notice.signature))
    );
}

#[test]
fn withdrawals_are_announced_only_after_a_warning() {
    let scales = RegionScales::new();
    let mut tracker = EewTracker::new();
    let mut cancelled = eew(vec![]);
    cancelled.cancelled = true;
    assert!(matches!(
        judge_eew(&tracker, &cancelled, &scales, 50, false),
        EewDecision::Ignore
    ));
    assert!(matches!(
        judge_eew(&tracker, &cancelled, &scales, 50, true),
        EewDecision::Withdraw
    ));
    tracker.insert(
        "ev1",
        QuakePost {
            signature: 0,
            message_id: "m".to_string(),
        },
    );
    assert!(matches!(
        judge_eew(&tracker, &cancelled, &scales, 50, false),
        EewDecision::Withdraw
    ));
    cancelled.issue.event_id = String::new();
    assert!(matches!(
        judge_eew(&tracker, &cancelled, &scales, 50, true),
        EewDecision::Ignore
    ));
    // eventId の無い報は差し替え対象を特定できないため扱わない。
    let mut nameless = eew(vec![eew_area("熊本", "熊本県熊本", 60, 60)]);
    nameless.issue.event_id = String::new();
    assert!(matches!(
        judge_eew(&tracker, &nameless, &scales, 50, false),
        EewDecision::Ignore
    ));
}

fn tsunami(id: &str, grade: &str) -> Tsunami {
    Tsunami {
        id: id.to_string(),
        cancelled: false,
        issue: TsunamiIssue { time: String::new() },
        areas: vec![TsunamiArea {
            grade: grade.to_string(),
            immediate: false,
            name: "三陸沿岸".to_string(),
        }],
    }
}

#[test]
fn tsunami_is_not_marked_seen_when_sending_fails() {
    // 送信前に記録すると、失敗した発表が再送や履歴からの拾い直しでも重複扱いに
    // なり、通知が永久に失われる。
    let mut seen = SeenIds::new();
    let watch = tsunami("t1", "Watch");
    assert!(prepare_tsunami(&mut seen, &watch, false).is_some());
    record_tsunami(&mut seen, &watch, false);
    assert!(!seen.contains("t1"), "送信に失敗した発表は記録しない");
    assert!(prepare_tsunami(&mut seen, &watch, false).is_some());
    record_tsunami(&mut seen, &watch, true);
    assert!(seen.contains("t1"));
    assert!(prepare_tsunami(&mut seen, &watch, false).is_none());
}

#[test]
fn tsunami_without_a_warning_counts_as_handled() {
    let mut seen = SeenIds::new();
    let unknown = tsunami("t2", "Unknown");
    assert!(prepare_tsunami(&mut seen, &unknown, false).is_none());
    assert!(seen.contains("t2"));
    // 解除報は警報が無くても知らせる。
    let mut lifted = tsunami("t3", "Unknown");
    lifted.cancelled = true;
    let payload = prepare_tsunami(&mut seen, &lifted, false).unwrap();
    assert_eq!(payload["embeds"][0]["title"], "🌊 津波予報 解除");
    // id の無い発表は重複とみなさない。
    let nameless = tsunami("", "Watch");
    record_tsunami(&mut seen, &nameless, true);
    assert!(prepare_tsunami(&mut seen, &nameless, false).is_some());
}

fn degrees(value: f64) -> Real {
    Real { bits: value.to_bits() }
}

#[test]
fn maps_show_the_epicenter_or_the_markers() {
    let stations = vec![ObservationStation {
        pref: "青森県".to_string(),
        name: "八戸市湊町".to_string(),
        latitude: degrees(40.53),
        longitude: degrees(141.53),
    }];
    let mut q = quake("DetailScale", 45);
    assert!(matches!(
        quake_map(&q, &stations, true),
        MapRequest::Nothing
    ));
    q.points = vec![Point {
        pref: "青森県".to_string(),
        addr: "八戸市湊町".to_string(),
        is_area: false,
        scale: 45,
    }];
    assert!(matches!(
        quake_map(&q, &stations, false),
        MapRequest::Nothing
    ));
    let MapRequest::Markers { markers } = quake_map(&q, &stations, true) else {
        panic!("震源が不明なら観測地点の地図にする");
    };
    assert_eq!(markers[0].latitude, degrees(40.53));
    q.earthquake.hypocenter.latitude = degrees(41.0);
    q.earthquake.hypocenter.longitude = degrees(142.0);
    let MapRequest::Quake { epicenter, markers } = quake_map(&q, &stations, true) else {
        panic!("震源が分かれば震源の地図にする");
    };
    assert_eq!((epicenter.latitude, epicenter.scale), (degrees(41.0), 45));
    assert_eq!(markers.len(), 1);

    let warning = eew(vec![eew_area("熊本", "熊本県熊本", 45, 99)]);
    let MapRequest::Markers { markers } = eew_map(&warning, true) else {
        panic!("震源が不明なら対象地域の地図にする");
    };
    assert_eq!(markers[0].scale, 45);
}

#[test]
fn test_runs_pick_the_first_that_is_announced() {
    let scales = RegionScales::new();
    let quakes = vec![quake("DetailScale", 30), quake("DetailScale", 50)];
    assert_eq!(pick_quake(&quakes, &scales, 50), Some(1));
    assert_eq!(pick_quake(&quakes, &scales, 60), None);

    let mut known = quake("DetailScale", 50);
    known.earthquake.hypocenter.latitude = degrees(35.0);
    known.earthquake.hypocenter.longitude = degrees(140.0);
    let bare = quake("ScalePrompt", 50);
    let mut prompt = quake("ScalePrompt", 50);
    prompt.points = vec![Point {
        pref: "宮城県".to_string(),
        addr: "宮城県北部".to_string(),
        is_area: true,
        scale: 50,
    }];
    assert_eq!(
        pick_prompt(&[known, bare, prompt], &[], &scales, 50),
        Some(2)
    );

    let mut cancelled = eew(vec![eew_area("熊本", "熊本県熊本", 60, 60)]);
    cancelled.cancelled = true;
    let weak = eew(vec![eew_area("熊本", "熊本県熊本", 40, 40)]);
    let strong = eew(vec![eew_area("熊本", "熊本県熊本", 60, 60)]);
    assert_eq!(pick_eew(&[cancelled, weak, strong], &scales, 50), Some(2));

    let mut lifted = tsunami("a", "Warning");
    lifted.cancelled = true;
    assert_eq!(
        pick_tsunami(&[lifted, tsunami("b", ""), tsunami("c", "Watch")]),
        Some(2)
    );
    assert_eq!(pick_tsunami(&[]), None);
}
