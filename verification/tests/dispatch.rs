use std::collections::HashMap;

use euca::app::dispatch::{absorb, MessageQueue, RenderSchedule};
use euca::app::side_effect::Commands;
use euca::patch::{Patch, PatchSet};

#[test]
fn updates_share_one_render() {
    let mut schedule: RenderSchedule<u32> = RenderSchedule::new();
    assert!(!schedule.is_scheduled());
    assert!(schedule.schedule(vec![1, 2]));
    assert!(schedule.is_scheduled());
    assert!(!schedule.schedule(vec![3]));
    assert!(!schedule.schedule(vec![]));
    assert_eq!(schedule.take(), vec![1, 2, 3]);
    assert!(!schedule.is_scheduled());
    assert_eq!(schedule.take(), Vec::<u32>::new());
    assert!(schedule.schedule(vec![4]));
    assert_eq!(schedule.take(), vec![4]);
}

#[test]
fn absorb_splits_commands() {
    let mut schedule: RenderSchedule<u32> = RenderSchedule::new();
    let mut commands: Commands<u32> = Commands::default();
    commands.push(7);
    commands.push(8);
    commands.post_render.push(9);
    let (request, immediate) = absorb(&mut schedule, commands);
    assert!(request);
    assert_eq!(immediate, vec![7, 8]);

    let mut more: Commands<u32> = Commands::default();
    more.post_render.push(10);
    let (request, immediate) = absorb(&mut schedule, more);
    assert!(!request);
    assert!(immediate.is_empty());
    assert_eq!(schedule.take(), vec![9, 10]);
}

#[test]
fn queue_hands_out_latest_message_first() {
    let mut queue: MessageQueue<&str> = MessageQueue::new();
    assert_eq!(queue.pop(), None);
    queue.push("a");
    queue.push("b");
    assert_eq!(queue.len(), 2);
    assert_eq!(queue.pop(), Some("b"));
    queue.push("c");
    assert_eq!(queue.pop(), Some("c"));
    assert_eq!(queue.pop(), Some("a"));
    assert_eq!(queue.pop(), None);
    assert_eq!(queue.len(), 0);
}

#[test]
fn extend_replaces_keyed_lists() {
    let mut a: PatchSet<(), u32> = PatchSet::new();
    let mut ka = HashMap::new();
    ka.insert(1u64, vec![Patch::CreateElement { element: "div".to_string() }, Patch::Up]);
    a.keyed = ka;
    assert!(!a.is_noop());

    let mut b: PatchSet<(), u32> = vec![Patch::CopyElement(0), Patch::Up].into();
    let mut kb = HashMap::new();
    kb.insert(1u64, vec![Patch::CopyElement(4), Patch::Up]);
    b.keyed = kb;
    assert!(b.is_noop());

    a.extend(b);
    assert!(a.is_noop());
    assert_eq!(a.len(), 2);
    assert_eq!(a.keyed.get(&1), Some(&vec![Patch::CopyElement(4), Patch::Up]));

    let c: PatchSet<(), u32> = vec![Patch::RemoveElement(2)].into();
    a.extend(c);
    assert!(!a.is_noop());
}

#[test]
fn many_updates_request_one_render() {
    let mut schedule: RenderSchedule<u32> = RenderSchedule::new();
    let updates = vec![vec![1], vec![], vec![2, 3], vec![4]];
    let requests = updates.into_iter().filter(|q| schedule.schedule(q.clone())).count();
    assert_eq!(requests, 1);
    assert_eq!(schedule.take(), vec![1, 2, 3, 4]);

    let mut schedule: RenderSchedule<u32> = RenderSchedule::new();
    assert!(schedule.schedule(vec![0]));
    let requests = vec![vec![5], vec![6]].into_iter().filter(|q| schedule.schedule(q.clone())).count();
    assert_eq!(requests, 0);
    assert_eq!(schedule.take(), vec![0, 5, 6]);
}
