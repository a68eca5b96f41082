use clipsync::net_dial::{settled_best, DialPlan, Race, Slot, Verdict, DIAL_FANOUT};

/// How an attempt at a port turns out: after how many milliseconds, and whether it
/// connects.
fn script(port: u16) -> (u64, bool) {
    match port {
        47682 => (2_000, true),
        47683 => (50, true),
        47684 => (2_000, false),
        47685 => (150, true),
        _ => (0, false),
    }
}

/// Runs a race on a clock of its own; which attempt won, and when.
fn race(ports: &[u16]) -> (Option<(usize, u16)>, u64) {
    let mut race = Race::start(ports.len(), 0);
    let mut now = 0;
    let mut left: Vec<usize> = (0..ports.len()).collect();
    loop {
        left.sort_by_key(|i| script(ports[*i]).0);
        match race.decide(now) {
            Verdict::Use(i) => return (Some((i, ports[i])), now),
            Verdict::GiveUp => return (None, now),
            Verdict::Wait(ms) => match left.first().copied() {
                Some(i) if script(ports[i]).0 <= now + ms => {
                    left.remove(0);
                    now = now.max(script(ports[i]).0);
                    race.report(i, script(ports[i]).1, now);
                }
                Some(_) => {
                    now += ms;
                    if race.gives_up() {
                        return (None, now);
                    }
                }
                None => race.all_gone(),
            },
        }
    }
}

#[test]
fn candidates_are_raced_not_tried_one_by_one() {
    let (got, took) = race(&[47682, 47681, 47681, 47681, 47681, 47681]);
    assert_eq!(got, Some((0, 47682)));
    assert!(took < 2_600, "{took}");
}

#[test]
fn a_fast_top_priority_hit_does_not_wait_for_the_stragglers() {
    let (got, took) = race(&[47683, 47682, 47682]);
    assert_eq!(got, Some((0, 47683)));
    assert!(took < 1_500, "{took}");
    assert_eq!(took, 50);
}

#[test]
fn priority_beats_speed_within_the_grace_window() {
    let (got, _) = race(&[47685, 47683]);
    assert_eq!(got, Some((0, 47685)));
}

#[test]
fn a_hopeless_high_priority_address_does_not_hold_the_connection_hostage() {
    let (got, took) = race(&[47684, 47684, 47683]);
    assert_eq!(got, Some((2, 47683)));
    assert!(took < 1_500, "{took}");
    assert!(took >= 300, "{took}");
}

#[test]
fn all_failures_return_none() {
    assert!(race(&[47681, 47681, 47681]).0.is_none());
    assert!(race(&[]).0.is_none());
}

#[test]
fn a_winner_is_settled_only_when_nothing_better_can_come() {
    assert_eq!(settled_best(&vec![Slot::Failed, Slot::Connected, Slot::Open]), Some(1));
    assert_eq!(settled_best(&vec![Slot::Open, Slot::Connected]), None);
    assert_eq!(settled_best(&vec![]), None);
}

#[test]
fn a_winner_that_cannot_be_used_is_skipped() {
    let mut plan = DialPlan::new(40);
    assert_eq!(plan.count, DIAL_FANOUT);
    plan.winner_failed(2);
    assert_eq!(plan.skip, 3);
    plan.winner_failed(0);
    assert_eq!(plan.skip, 4);
}

#[test]
fn an_attempt_that_vanished_costs_no_connection() {
    let mut race = Race::start(3, 0);
    race.report(1, true, 40);
    race.report(2, false, 45);
    assert_eq!(race.decide(50), Verdict::Wait(290));
    assert!(!race.gives_up());
    race.all_gone();
    assert_eq!(race.slots, vec![Slot::Failed, Slot::Connected, Slot::Failed]);
    assert_eq!((race.hit_at, race.deadline), (Some(40), 4_000));
    assert_eq!(race.decide(50), Verdict::Use(1));
}

#[test]
fn vanished_attempts_alone_are_given_up() {
    let mut race = Race::start(2, 0);
    race.report(0, false, 10);
    assert_eq!(race.decide(20), Verdict::Wait(3_980));
    assert!(race.gives_up());
    race.all_gone();
    assert_eq!(race.decide(20), Verdict::GiveUp);
}

#[test]
fn a_connection_is_used_even_at_the_last_moment() {
    let mut race = Race::start(2, 0);
    race.report(1, true, 3_900);
    assert_eq!(race.decide(3_950), Verdict::Wait(50));
    assert_eq!(race.decide(4_000), Verdict::Use(1));
    assert_eq!(Race::start(2, 0).decide(4_000), Verdict::GiveUp);
}
