use riiry::worker::{abort_if_done, poll_means_done, Aborted, Cancel, ChannelPoll, Worker};

#[test]
fn never_is_never_done() {
    let c = Cancel::Never;
    assert!(!c.check_done());
    assert_eq!(c.maybe_abort(), Ok(()));
}

#[test]
fn poll_outcomes() {
    assert!(poll_means_done(ChannelPoll::Signalled));
    assert!(poll_means_done(ChannelPoll::Disconnected));
    assert!(!poll_means_done(ChannelPoll::Pending));
}

#[test]
fn starting_a_job_cancels_the_previous_one() {
    let mut w = Worker::new();
    let first = w.start_job();
    assert!(!first.check_done());
    assert_eq!(first.maybe_abort(), Ok(()));
    let second = w.start_job();
    assert!(first.check_done());
    assert_eq!(first.maybe_abort(), Err(Aborted));
    assert!(!second.check_done());
    drop(w);
    assert!(second.check_done());
}

#[test]
fn default_worker_starts_jobs_too() {
    let mut w = Worker::default();
    let c = w.start_job();
    assert!(matches!(c, Cancel::OnMessage(_)));
    assert!(!c.check_done());
}

#[test]
fn abort_if_done_outcomes() {
    assert_eq!(abort_if_done(true), Err(Aborted));
    assert_eq!(abort_if_done(false), Ok(()));
}

#[test]
fn a_cancelled_job_stays_cancelled() {
    let mut w = Worker::new();
    let first = w.start_job();
    let _second = w.start_job();
    for _ in 0..3 {
        assert!(first.check_done());
        assert_eq!(first.maybe_abort(), Err(Aborted));
    }
}
