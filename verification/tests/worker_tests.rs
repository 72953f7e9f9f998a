use capture_the_ip::refresh::{
    is_home, refresh_plan, RankingPeriod, RefreshAction, RefreshEvent, RefreshStep, RefreshWorker,
};
use capture_the_ip::shutdown::{countdown, privdrop, StopHandshake, StopReply};

#[test]
fn home_is_debug_or_frankfurt() {
    assert!(is_home(true, "___"));
    assert!(is_home(false, "fra"));
    assert!(!is_home(false, "ams"));
    assert!(!is_home(false, "fr"));
    assert!(!is_home(false, "FRA"));
    assert!(!is_home(false, "fra "));
}

#[test]
fn refresh_plan_order_and_statements() {
    let sql: Vec<Option<&str>> = refresh_plan().iter().map(|s| s.sql()).collect();
    assert_eq!(
        sql,
        vec![
            Some("refresh materialized view block_holders"),
            Some("refresh materialized view ranking_hour"),
            Some("refresh materialized view ranking_day"),
            Some("refresh materialized view ranking_week"),
            Some("refresh materialized view ranking_month"),
            Some("refresh materialized view ranking_year"),
            Some("refresh materialized view ranking_all_time"),
            Some("refresh materialized view user_ranking"),
            None,
            None,
        ]
    );
    assert_eq!(refresh_plan()[8], RefreshStep::StampRefreshedAt);
    assert_eq!(refresh_plan()[9], RefreshStep::ReportConnections);
    assert_eq!(RankingPeriod::AllTime.view_name(), "ranking_all_time");
    assert_eq!(RankingPeriod::Week.view_name(), "ranking_week");
}

#[test]
fn refresher_refreshes_only_at_home() {
    let mut w = RefreshWorker::new();
    assert!(matches!(w.step(RefreshEvent::Tick { home: false }), RefreshAction::Continue));
    match w.step(RefreshEvent::Tick { home: true }) {
        RefreshAction::Refresh(plan) => assert_eq!(plan, refresh_plan()),
        _ => panic!("expected a refresh"),
    }
    assert!(matches!(w.step(RefreshEvent::Terminate), RefreshAction::Stop(StopReply::SendToken)));
    assert!(matches!(w.step(RefreshEvent::Terminate), RefreshAction::Stop(StopReply::SenderConsumed)));
}

#[test]
fn stop_handshake_once() {
    let mut h = StopHandshake::new();
    assert_eq!(h.on_termination(), StopReply::SendToken);
    assert!(!h.sender_held);
    assert_eq!(h.on_termination(), StopReply::SenderConsumed);
}

#[test]
fn countdown_counts_down_to_one() {
    assert_eq!(countdown(3), vec![3, 2, 1]);
    assert_eq!(countdown(15).len(), 15);
    assert_eq!(countdown(0), Vec::<u64>::new());
}

#[test]
fn privdrop_only_for_root() {
    let plan = privdrop(true).unwrap();
    assert_eq!(plan.chroot, "/app");
    assert_eq!(plan.user, "nobody");
    assert!(privdrop(false).is_none());
}
