//! Process trees and signals.

use video_downloader::linux::{
    cont_tree, freeze_tree, kill_tree, parent_pid, process_tree, signal_tree, stop_tree, Freeze,
    Kill,
};
use video_downloader::process::{deliver, reversed, Delivery, Signal};
use video_downloader::windows::{self, owned_threads, resume_again, Suspension, SUSPEND_PASSES};

fn links() -> Vec<(u32, u32)> {
    vec![(1, 0), (10, 1), (30, 20), (20, 10), (21, 10), (99, 1), (31, 21), (40, 30)]
}

fn pids(list: &[Delivery], signal: Signal) -> Vec<u32> {
    list.iter().for_each(|delivery| assert_eq!(delivery.signal, signal));
    list.iter().map(|delivery| delivery.pid).collect()
}

#[test]
fn a_tree_has_parents_before_children() {
    assert_eq!(process_tree(10, &links()), Some(vec![10, 20, 21, 30, 31, 40]));
    assert_eq!(process_tree(40, &links()), Some(vec![40]));
    assert_eq!(process_tree(7, &Vec::new()), Some(vec![7]));
    assert_eq!(windows::process_tree(10, &links()), [10, 20, 21, 30, 31, 40]);
    assert_eq!(windows::process_tree(7, &Vec::new()), [7]);
}

#[test]
fn a_chain_is_followed_to_its_end() {
    let chain: Vec<(u32, u32)> = (1..50).rev().map(|pid| (pid, pid - 1)).collect();
    let expected: Vec<u32> = (0..50).collect();
    assert_eq!(process_tree(0, &chain), Some(expected.clone()));
    assert_eq!(windows::process_tree(0, &chain), expected);
}

#[test]
fn a_process_listed_twice() {
    let twice = vec![(2, 1), (2, 1), (3, 2)];
    assert_eq!(process_tree(1, &twice), Some(vec![1, 2, 2, 3, 3]));
    assert_eq!(windows::process_tree(1, &twice), [1, 2, 3]);
    let stops = stop_tree(&mut Freeze::new(), 1, &twice).unwrap();
    assert_eq!(pids(&stops, Signal::Stop), [1, 2, 2, 3, 3]);
}

#[test]
fn a_process_that_is_its_own_descendant() {
    let odd = vec![(5, 5), (6, 5), (5, 6), (6, 5), (7, 6), (6, 7)];
    assert_eq!(process_tree(5, &odd), None);
    assert_eq!(windows::process_tree(5, &odd), [5, 6, 7]);
    assert_eq!(process_tree(0, &vec![(0, 0), (4, 0)]), None);
    assert_eq!(windows::process_tree(0, &vec![(0, 0), (4, 0)]), [0, 4]);
    // A cycle that the root does not lead into is no matter.
    assert_eq!(process_tree(1, &vec![(8, 9), (9, 8), (2, 1)]), Some(vec![1, 2]));
    let mut kill = Kill::new();
    assert_eq!(kill_tree(&mut kill, 5, &odd), None);
    assert_eq!(kill, Kill::new());
    let mut freeze = Freeze::new();
    assert_eq!(freeze_tree(&mut freeze, 5, &odd), None);
    assert_eq!(freeze, Freeze::new());
    assert_eq!(cont_tree(5, &odd), None);
}

#[test]
fn lists_are_reversed_and_delivered() {
    assert_eq!(reversed(&vec![1, 2, 3]), [3, 2, 1]);
    assert_eq!(pids(&deliver(&vec![4, 5], Signal::Stop), Signal::Stop), [4, 5]);
}

#[test]
fn the_parent_follows_the_last_bracket() {
    assert_eq!(parent_pid("12 (yt-dlp) S 7 12 12 0"), Some(7));
    assert_eq!(parent_pid("12 (a) b (c)) R 8 1"), Some(8));
    assert_eq!(parent_pid("12 (x)  S\t9"), Some(9));
    assert_eq!(parent_pid("12 (x) S"), None);
    assert_eq!(parent_pid("12 (x) S none 4"), None);
    assert_eq!(parent_pid("12 x S 7"), None);
    assert_eq!(parent_pid(""), None);
}

#[test]
fn signals_reach_leaves_first() {
    let list = signal_tree(10, &links(), Signal::Kill).unwrap();
    assert_eq!(pids(&list, Signal::Kill), [40, 31, 30, 21, 20, 10]);
    let list = cont_tree(10, &links()).unwrap();
    assert_eq!(pids(&list, Signal::Continue), [40, 31, 30, 21, 20, 10]);
}

#[test]
fn resuming_reaches_what_was_stopped() {
    let mut freeze = Freeze::new();
    let mut stopped = pids(&stop_tree(&mut freeze, 10, &links()).unwrap(), Signal::Stop);
    let resumed = pids(&cont_tree(10, &links()).unwrap(), Signal::Continue);
    stopped.reverse();
    assert_eq!(stopped, resumed);
}

#[test]
fn a_tree_that_stays_is_frozen_in_two_rounds() {
    let mut freeze = Freeze::new();
    let list = freeze_tree(&mut freeze, 10, &links()).unwrap();
    assert_eq!(pids(&list, Signal::Stop), [10, 20, 21, 30, 31, 40]);
    assert!(!freeze.settled);
    assert_eq!(freeze.previous, 6);
    assert_eq!(freeze_tree(&mut freeze, 10, &links()).unwrap().len(), 6);
    assert!(freeze.settled);
    assert_eq!(freeze.rounds, 2);
    assert_eq!(freeze_tree(&mut freeze, 10, &links()), Some(Vec::new()));
}

#[test]
fn a_tree_that_grows_is_frozen_in_five_rounds() {
    let mut freeze = Freeze::new();
    let mut growing: Vec<(u32, u32)> = Vec::new();
    let mut rounds = 0;
    while !freeze.settled {
        let list = stop_tree(&mut freeze, 1, &growing).unwrap();
        rounds += 1;
        assert_eq!(list.len(), rounds);
        growing.push((100 + rounds as u32, 1));
    }
    assert_eq!(rounds, 5);
}

#[test]
fn killing_freezes_first() {
    let mut kill = Kill::new();
    let mut seen: Vec<Signal> = Vec::new();
    while !kill.done {
        let list = kill_tree(&mut kill, 10, &links()).unwrap();
        assert_eq!(list.len(), 6);
        seen.push(list[0].signal);
        if kill.done {
            assert_eq!(pids(&list, Signal::Kill), [40, 31, 30, 21, 20, 10]);
        }
    }
    assert_eq!(seen, [Signal::Stop, Signal::Stop, Signal::Kill]);
    assert_eq!(kill_tree(&mut kill, 10, &links()), Some(Vec::new()));
    assert_eq!(windows::kill_tree(10, &links()), [40, 31, 30, 21, 20, 10]);
}

#[test]
fn resuming_drains_repeated_suspensions() {
    let mut count: u32 = 3;
    loop {
        let previous = count;
        count = count.saturating_sub(1);
        if !resume_again(previous) {
            break;
        }
    }
    assert_eq!(count, 0);
    assert!(!resume_again(0));
    assert!(!resume_again(1));
    assert!(resume_again(2));
    assert!(resume_again(u32::MAX - 1));
    assert!(!resume_again(u32::MAX));
}

#[test]
fn threads_are_found_by_their_owner() {
    let threads = vec![(500, 10), (501, 99), (502, 20), (503, 10)];
    assert_eq!(owned_threads(&vec![10, 20], &threads), [500, 502, 503]);
    assert!(owned_threads(&Vec::new(), &threads).is_empty());
}

#[test]
fn threads_are_suspended_in_two_passes() {
    let threads = vec![(500, 10), (501, 99), (502, 40)];
    let mut suspension = Suspension::new();
    let mut passes = 0;
    while !suspension.done() {
        assert_eq!(windows::stop_tree(&mut suspension, 10, &links(), &threads), [500, 502]);
        passes += 1;
    }
    assert_eq!(passes, 2);
    assert_eq!(suspension.passes, SUSPEND_PASSES);
    assert!(windows::stop_tree(&mut suspension, 10, &links(), &threads).is_empty());
    assert_eq!(windows::cont_tree(10, &links(), &threads), [500, 502]);
}
