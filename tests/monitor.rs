use pid_set::{Action, Event, PidSet, PidSetError};

const EPOLL: i32 = 7;
const ESRCH: i32 = 3;

/// Registers every pid of `pids`, answering each open with `fd_base + position`.
fn register(set: &mut PidSet, first: Action, pids: &[u32], fd_base: i32) -> Action {
    assert_eq!(first, Action::CreateMultiplexer);
    let mut action = set.resume(Event::Created(Ok(EPOLL)));
    for (i, pid) in pids.iter().enumerate() {
        assert_eq!(action, Action::OpenHandle { pid: *pid });
        let fd = fd_base + i as i32;
        action = set.resume(Event::Opened(Ok(fd)));
        assert_eq!(action, Action::Attach { epoll_fd: EPOLL, fd, token: *pid });
        action = set.resume(Event::Attached(Ok(())));
    }
    action
}

#[test]
fn wait_all_drains_every_pid() {
    let pids = [101u32, 102, 103, 104, 105];
    let mut set = PidSet::new(pids.to_vec());
    let first = set.wait_all();
    let mut action = register(&mut set, first, &pids, 20);
    assert_eq!(action, Action::Poll { epoll_fd: EPOLL, max_events: 5 });
    // Exits arrive out of order and in batches.
    for batch in [vec![103u32, 101], vec![105], vec![102, 104]] {
        action = set.resume(Event::Polled(Ok(batch.clone())));
        for (i, pid) in batch.iter().enumerate() {
            let position = pids.iter().position(|p| p == pid).unwrap() as i32;
            assert_eq!(action, Action::Detach { epoll_fd: EPOLL, fd: 20 + position });
            action = set.resume(Event::Detached(Ok(())));
            if i + 1 == batch.len() && *pid != 104 {
                assert_eq!(action, Action::Poll { epoll_fd: EPOLL, max_events: 5 });
            }
        }
    }
    assert_eq!(action, Action::Finished(Ok(5)));
    assert!(!set.is_waiting());
    // Nothing is left: a second wait for all finishes at once.
    assert_eq!(set.wait_all(), Action::Finished(Ok(0)));
    assert_eq!(set.close(), Some(EPOLL));
}

#[test]
fn wait_any_finishes_after_first_exit() {
    let pids = [11u32, 12, 13, 14, 15];
    let mut set = PidSet::new(pids.to_vec());
    let first = set.wait_any();
    let action = register(&mut set, first, &pids, 40);
    assert_eq!(action, Action::Poll { epoll_fd: EPOLL, max_events: 5 });
    let action = set.resume(Event::Polled(Ok(vec![11])));
    assert_eq!(action, Action::Detach { epoll_fd: EPOLL, fd: 40 });
    assert_eq!(set.resume(Event::Detached(Ok(()))), Action::Finished(Ok(1)));
    // Later waits poll the registered multiplexer directly.
    assert_eq!(set.wait_any(), Action::Poll { epoll_fd: EPOLL, max_events: 4 });
}

#[test]
fn whole_batch_is_drained_past_the_target() {
    let pids = [1u32, 2, 3];
    let mut set = PidSet::new(pids.to_vec());
    let first = set.wait_any();
    register(&mut set, first, &pids, 50);
    assert_eq!(set.resume(Event::Polled(Ok(vec![2, 3]))), Action::Detach { epoll_fd: EPOLL, fd: 51 });
    assert_eq!(set.resume(Event::Detached(Ok(()))), Action::Detach { epoll_fd: EPOLL, fd: 52 });
    assert_eq!(set.resume(Event::Detached(Ok(()))), Action::Finished(Ok(2)));
}

#[test]
fn exit_is_not_delivered_twice() {
    let pids = [1u32, 2];
    let mut set = PidSet::new(pids.to_vec());
    let first = set.wait_any();
    register(&mut set, first, &pids, 60);
    set.resume(Event::Polled(Ok(vec![1])));
    assert_eq!(set.resume(Event::Detached(Ok(()))), Action::Finished(Ok(1)));
    assert_eq!(set.wait_any(), Action::Poll { epoll_fd: EPOLL, max_events: 1 });
    assert_eq!(
        set.resume(Event::Polled(Ok(vec![1]))),
        Action::Finished(Err(PidSetError::PidNotFound(1)))
    );
}

#[test]
fn empty_set_wait_all_returns_without_polling() {
    let mut set = PidSet::new(vec![]);
    assert_eq!(set.wait_all(), Action::CreateMultiplexer);
    assert_eq!(set.resume(Event::Created(Ok(EPOLL))), Action::Finished(Ok(0)));
    assert_eq!(set.wait_all(), Action::Finished(Ok(0)));
}

#[test]
fn exited_pid_fails_at_registration() {
    let mut set = PidSet::new(vec![4242]);
    assert_eq!(set.wait_any(), Action::CreateMultiplexer);
    assert_eq!(set.resume(Event::Created(Ok(EPOLL))), Action::OpenHandle { pid: 4242 });
    assert_eq!(set.resume(Event::Opened(Err(ESRCH))), Action::Release { epoll_fd: EPOLL });
    assert_eq!(
        set.resume(Event::Released),
        Action::Finished(Err(PidSetError::PidFdOpenSyscall(4242, ESRCH)))
    );
    // The failed setup is not kept: the next wait starts over.
    assert_eq!(set.wait_any(), Action::CreateMultiplexer);
}

#[test]
fn close_without_wait_releases_nothing() {
    let set = PidSet::new(vec![1, 2, 3]);
    assert_eq!(set.close(), None);
}

#[test]
fn duplicate_pids_are_watched_once() {
    let mut set = PidSet::new(vec![9, 9, 8, 9]);
    let first = set.wait_all();
    let action = register(&mut set, first, &[9, 8], 70);
    assert_eq!(action, Action::Poll { epoll_fd: EPOLL, max_events: 2 });
}

#[test]
fn create_failure_is_reported() {
    let mut set = PidSet::new(vec![1]);
    set.wait_all();
    assert_eq!(
        set.resume(Event::Created(Err(24))),
        Action::Finished(Err(PidSetError::EpollCreate(24)))
    );
    assert!(!set.is_waiting());
}

#[test]
fn attach_failure_releases_multiplexer() {
    let mut set = PidSet::new(vec![5, 6]);
    set.wait_all();
    set.resume(Event::Created(Ok(EPOLL)));
    set.resume(Event::Opened(Ok(30)));
    assert_eq!(set.resume(Event::Attached(Ok(()))), Action::OpenHandle { pid: 6 });
    set.resume(Event::Opened(Ok(31)));
    // Both handles opened so far are closed, the last one first, then the multiplexer.
    assert_eq!(set.resume(Event::Attached(Err(17))), Action::CloseHandle { fd: 31 });
    assert_eq!(set.resume(Event::Closed), Action::CloseHandle { fd: 30 });
    assert_eq!(set.resume(Event::Closed), Action::Release { epoll_fd: EPOLL });
    assert_eq!(set.resume(Event::Released), Action::Finished(Err(PidSetError::EpollCtl(17))));
    assert_eq!(set.close(), None);
}

#[test]
fn poll_failure_is_reported() {
    let mut set = PidSet::new(vec![5]);
    let first = set.wait_any();
    register(&mut set, first, &[5], 80);
    assert_eq!(
        set.resume(Event::Polled(Err(4))),
        Action::Finished(Err(PidSetError::EpollWait(4)))
    );
}

#[test]
fn detach_failure_still_forgets_pid() {
    let mut set = PidSet::new(vec![5, 6]);
    let first = set.wait_all();
    register(&mut set, first, &[5, 6], 90);
    set.resume(Event::Polled(Ok(vec![6])));
    assert_eq!(
        set.resume(Event::Detached(Err(2))),
        Action::Finished(Err(PidSetError::EpollCtl(2)))
    );
    assert_eq!(set.wait_all(), Action::Poll { epoll_fd: EPOLL, max_events: 1 });
}

#[test]
fn unexpected_event_repeats_pending_action() {
    let mut set = PidSet::new(vec![5]);
    assert_eq!(set.wait_any(), Action::CreateMultiplexer);
    assert_eq!(set.resume(Event::Released), Action::CreateMultiplexer);
    assert_eq!(set.resume(Event::Created(Ok(EPOLL))), Action::OpenHandle { pid: 5 });
    assert_eq!(set.resume(Event::Polled(Ok(vec![5]))), Action::OpenHandle { pid: 5 });
}

#[test]
fn empty_poll_polls_again() {
    let mut set = PidSet::new(vec![5]);
    let first = set.wait_any();
    register(&mut set, first, &[5], 10);
    assert_eq!(set.resume(Event::Polled(Ok(vec![]))), Action::Poll { epoll_fd: EPOLL, max_events: 1 });
}

#[test]
fn wait_n_zero_finishes_at_once() {
    let mut set = PidSet::new(vec![5, 6]);
    let first = set.wait_n(0);
    assert_eq!(register(&mut set, first, &[5, 6], 10), Action::Finished(Ok(0)));
    assert_eq!(set.wait_n(2), Action::Poll { epoll_fd: EPOLL, max_events: 2 });
}

#[test]
fn failed_open_closes_handles_opened_before() {
    let mut set = PidSet::new(vec![5, 6, 7]);
    assert_eq!(set.wait_all(), Action::CreateMultiplexer);
    set.resume(Event::Created(Ok(EPOLL)));
    set.resume(Event::Opened(Ok(30)));
    set.resume(Event::Attached(Ok(())));
    set.resume(Event::Opened(Ok(31)));
    assert_eq!(set.resume(Event::Attached(Ok(()))), Action::OpenHandle { pid: 7 });
    assert_eq!(set.resume(Event::Opened(Err(ESRCH))), Action::CloseHandle { fd: 31 });
    assert_eq!(set.resume(Event::Released), Action::CloseHandle { fd: 31 });
    assert_eq!(set.resume(Event::Closed), Action::CloseHandle { fd: 30 });
    assert_eq!(set.resume(Event::Closed), Action::Release { epoll_fd: EPOLL });
    assert_eq!(
        set.resume(Event::Released),
        Action::Finished(Err(PidSetError::PidFdOpenSyscall(7, ESRCH)))
    );
    assert!(!set.is_waiting());
    assert_eq!(set.close(), None);
}

#[test]
fn wait_for_more_than_watched_fails_at_once() {
    let mut set = PidSet::new(vec![]);
    assert_eq!(set.wait_any(), Action::Finished(Err(PidSetError::WaitCountTooLarge(1))));
    let mut set = PidSet::new(vec![1, 2]);
    assert_eq!(set.wait_n(3), Action::Finished(Err(PidSetError::WaitCountTooLarge(3))));
    assert!(!set.is_waiting());
    assert_eq!(set.close(), None);
}

#[test]
fn handles_stay_with_their_pids() {
    let pids = [1u32, 2, 3];
    let mut set = PidSet::new(pids.to_vec());
    let first = set.wait_all();
    register(&mut set, first, &pids, 100);
    assert_eq!(set.resume(Event::Polled(Ok(vec![1]))), Action::Detach { epoll_fd: EPOLL, fd: 100 });
    set.resume(Event::Detached(Ok(())));
    assert_eq!(set.resume(Event::Polled(Ok(vec![3]))), Action::Detach { epoll_fd: EPOLL, fd: 102 });
    set.resume(Event::Detached(Ok(())));
    assert_eq!(set.resume(Event::Polled(Ok(vec![2]))), Action::Detach { epoll_fd: EPOLL, fd: 101 });
    assert_eq!(set.resume(Event::Detached(Ok(()))), Action::Finished(Ok(3)));
}
