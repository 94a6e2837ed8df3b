use warframe_market_ducats_buyer::jobs::{JobAction, JobEvent, Jobs};
use warframe_market_ducats_buyer::model::Order;

#[test]
fn fetch_starts_once_until_it_reports() {
    let mut jobs = Jobs::new();
    assert!(jobs.can_fetch());
    assert_eq!(jobs.step(JobEvent::FetchClicked), JobAction::StartFetch);
    assert!(jobs.loading_fetch);
    assert_eq!(jobs.step(JobEvent::FetchClicked), JobAction::Nothing);
    assert_eq!(jobs.step(JobEvent::FetchFinished(Ok(vec![Order::default()]))), JobAction::Nothing);
    assert!(!jobs.loading_fetch);
    assert_eq!(jobs.orders.as_ref().map(|o| o.len()), Some(1));
    assert!(jobs.can_fetch());
}

#[test]
fn processing_needs_fetched_orders() {
    let mut jobs = Jobs::new();
    assert!(!jobs.can_process());
    assert_eq!(jobs.step(JobEvent::ProcessClicked), JobAction::Nothing);
    jobs.step(JobEvent::FetchFinished(Ok(Vec::new())));
    assert_eq!(jobs.step(JobEvent::ProcessClicked), JobAction::Nothing);
    jobs.step(JobEvent::FetchFinished(Ok(vec![Order::default()])));
    assert_eq!(jobs.step(JobEvent::ProcessClicked), JobAction::StartProcess);
    assert!(jobs.loading_process);
    assert_eq!(jobs.step(JobEvent::ProcessClicked), JobAction::Nothing);
    jobs.step(JobEvent::ProcessFinished(Ok(vec![Order::default(), Order::default()])));
    assert!(!jobs.loading_process);
    assert_eq!(jobs.processed_orders.as_ref().map(|o| o.len()), Some(2));
}

#[test]
fn errors_and_disconnects_end_jobs() {
    let mut jobs = Jobs::new();
    jobs.step(JobEvent::FetchFinished(Ok(vec![Order::default()])));
    jobs.step(JobEvent::FetchClicked);
    jobs.step(JobEvent::FetchFinished(Err("timeout".to_string())));
    assert!(jobs.orders.is_none());
    assert!(!jobs.loading_fetch);
    jobs.step(JobEvent::FetchClicked);
    jobs.step(JobEvent::FetchDisconnected);
    assert!(!jobs.loading_fetch);
    jobs.step(JobEvent::FetchFinished(Ok(vec![Order::default()])));
    jobs.step(JobEvent::ProcessClicked);
    jobs.step(JobEvent::ProcessFinished(Err("bad".to_string())));
    assert!(jobs.processed_orders.is_none());
    assert!(!jobs.loading_process);
    jobs.step(JobEvent::ProcessClicked);
    jobs.step(JobEvent::ProcessDisconnected);
    assert!(!jobs.loading_process);
    assert!(jobs.orders.is_some());
}
