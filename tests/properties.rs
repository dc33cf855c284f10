use actor_pool::{Actor, ActorError, ActorPool, ActorState, Message, MAILBOX_CAPACITY};

fn pool_of(n: usize) -> ActorPool {
    let mut pool = ActorPool::new();
    for _ in 0..n {
        pool.create_actor();
    }
    pool
}

#[test]
fn active_value_is_sum_of_deltas_with_subscribers_present() {
    let mut pool = pool_of(3);
    pool.subscribe(0, vec![1, 2]).unwrap();
    for n in [10, 20, 55, 130] {
        pool.message_loop(0, Message::Increment(n)).unwrap();
    }
    assert_eq!(pool.get_actor_value(0).unwrap(), 215);
    assert_eq!(pool.get_actor_value(1).unwrap(), 215);
    for n in [10, 20, 55, 130] {
        pool.message_loop(0, Message::Decrement(n)).unwrap();
    }
    assert_eq!(pool.get_actor_value(0).unwrap(), 0);
    assert_eq!(pool.get_actor_value(2).unwrap(), 0);
}

#[test]
fn ids_count_up_from_zero() {
    let mut pool = ActorPool::new();
    for i in 0..5 {
        assert_eq!(pool.create_actor(), i);
    }
    let mut other = ActorPool::new();
    assert_eq!(other.create_actor(), 0);
}

#[test]
fn inactive_actor_keeps_messages_in_order() {
    let mut pool = pool_of(1);
    assert_eq!(pool.update_actor_state(0).unwrap(), ActorState::Inactive);
    let sent = vec![Message::Increment(10), Message::Decrement(3), Message::Increment(30)];
    for m in sent.iter() {
        pool.message_loop(0, *m).unwrap();
    }
    let queued: Vec<Message> = pool.get_actor_info(0).unwrap().mailbox.iter().copied().collect();
    assert_eq!(queued, sent);
    assert_eq!(pool.get_actor_value(0).unwrap(), 0);
    assert_eq!(pool.update_actor_state(0).unwrap(), ActorState::Active);
    assert_eq!(pool.get_actor_value(0).unwrap(), 37);
    assert_eq!(pool.get_actor_info(0).unwrap().mailbox.len(), 0);
}

#[test]
fn subscribe_then_send_reaches_each_actor_once() {
    let mut pool = pool_of(5);
    pool.subscribe(0, vec![1, 2]).unwrap();
    pool.subscribe(1, vec![3]).unwrap();
    pool.subscribe(0, vec![4]).unwrap();
    pool.message_loop(0, Message::Increment(7)).unwrap();
    for id in 0..5 {
        assert_eq!(pool.get_actor_value(id).unwrap(), 7);
    }
}

#[test]
fn diamond_is_not_a_cycle() {
    let mut pool = pool_of(4);
    pool.subscribe(0, vec![1, 2]).unwrap();
    pool.subscribe(1, vec![3]).unwrap();
    pool.subscribe(2, vec![3]).unwrap();
    assert_eq!(pool.detect_cycle_bfs(0), Ok(false));
    assert_eq!(pool.detect_cycle(0), Ok(false));
    assert_eq!(pool.detect_cycle_dfs(0), Ok(false));
    assert_eq!(pool.detect_cycle_topological_sort(0), Ok(false));
}

#[test]
fn message_reaches_an_actor_once_along_each_path() {
    // 0 -> 1 -> 3 and 0 -> 2 -> 3: actor 3 is reached along two paths
    let mut pool = pool_of(4);
    pool.subscribe(0, vec![1, 2]).unwrap();
    pool.subscribe(1, vec![3]).unwrap();
    pool.subscribe(2, vec![3]).unwrap();
    pool.message_loop(0, Message::Increment(5)).unwrap();
    assert_eq!(pool.get_actor_value(0).unwrap(), 5);
    assert_eq!(pool.get_actor_value(1).unwrap(), 5);
    assert_eq!(pool.get_actor_value(2).unwrap(), 5);
    assert_eq!(pool.get_actor_value(3).unwrap(), 10);
}

#[test]
fn shortcut_without_cycle_is_accepted() {
    let mut pool = pool_of(3);
    pool.subscribe(0, vec![1]).unwrap();
    pool.subscribe(1, vec![2]).unwrap();
    assert_eq!(pool.subscribe(0, vec![2]).map(|_| ()), Ok(()));
    assert_eq!(pool.get_actor_subscribers(0).unwrap(), vec![1, 2]);
}

#[test]
fn subscribe_stops_at_the_edge_that_closes_a_cycle() {
    // 0 -> 1 -> 2 and 3 -> 0; subscribing [2, 3] to 0 keeps 0 -> 2 and
    // refuses 0 -> 3, which would close 0 -> 3 -> 0
    let mut pool = pool_of(4);
    pool.subscribe(0, vec![1]).unwrap();
    pool.subscribe(1, vec![2]).unwrap();
    pool.subscribe(3, vec![0]).unwrap();
    assert_eq!(
        pool.subscribe(0, vec![2, 3]).map(|_| ()),
        Err(ActorError::CyclicSubscription(0, 3))
    );
    assert_eq!(pool.get_actor_subscribers(0).unwrap(), vec![1, 2]);
    assert_eq!(pool.detect_cycle(0), Ok(false));
}

#[test]
fn all_guards_see_a_three_cycle() {
    let mut pool = pool_of(3);
    pool.subscribe(0, vec![1]).unwrap();
    pool.subscribe(1, vec![2]).unwrap();
    pool.actor_list[2].add_subscriber(0).unwrap();
    for start in 0..3 {
        assert_eq!(pool.detect_cycle_bfs(start), Ok(true));
        assert_eq!(pool.detect_cycle_dfs(start), Ok(true));
        assert_eq!(pool.detect_cycle_topological_sort(start), Ok(true));
    }
}

#[test]
fn all_guards_see_no_cycle_in_a_chain() {
    let mut pool = pool_of(3);
    pool.subscribe(0, vec![1]).unwrap();
    pool.subscribe(1, vec![2]).unwrap();
    for start in 0..3 {
        assert_eq!(pool.detect_cycle_bfs(start), Ok(false));
        assert_eq!(pool.detect_cycle_dfs(start), Ok(false));
        assert_eq!(pool.detect_cycle_topological_sort(start), Ok(false));
    }
}

#[test]
fn cycle_behind_the_start_is_found() {
    // 0 -> 1 -> 2 -> 1: the cycle does not pass through 0
    let mut pool = pool_of(3);
    pool.subscribe(0, vec![1]).unwrap();
    pool.subscribe(1, vec![2]).unwrap();
    pool.actor_list[2].add_subscriber(1).unwrap();
    assert_eq!(pool.detect_cycle_bfs(0), Ok(true));
    assert_eq!(pool.detect_cycle_dfs(0), Ok(true));
    assert_eq!(pool.detect_cycle_topological_sort(0), Ok(true));
}

#[test]
fn cycle_elsewhere_is_not_reported() {
    // 1 <-> 2 is a cycle, but nothing of it is reachable from 0
    let mut pool = pool_of(3);
    pool.actor_list[1].add_subscriber(2).unwrap();
    pool.actor_list[2].add_subscriber(1).unwrap();
    assert_eq!(pool.detect_cycle_bfs(0), Ok(false));
    assert_eq!(pool.detect_cycle_dfs(0), Ok(false));
    assert_eq!(pool.detect_cycle_topological_sort(0), Ok(false));
    assert_eq!(pool.detect_cycle_dfs(1), Ok(true));
}

#[test]
fn eleventh_message_overflows() {
    let mut pool = pool_of(1);
    pool.update_actor_state(0).unwrap();
    for i in 0..MAILBOX_CAPACITY {
        pool.message_loop(0, Message::Increment(i as i32)).unwrap();
    }
    assert_eq!(
        pool.message_loop(0, Message::Increment(100)),
        Err(ActorError::MailboxOverflow(0))
    );
    assert_eq!(pool.get_actor_info(0).unwrap().mailbox.len(), 10);
    assert_eq!(pool.get_actor_value(0).unwrap(), 0);
}

#[test]
fn duplicate_subscription_is_refused() {
    let mut pool = pool_of(2);
    pool.subscribe(0, vec![1]).unwrap();
    assert_eq!(
        pool.subscribe(0, vec![1]).map(|_| ()),
        Err(ActorError::ActorAlreadyExists(1))
    );
    assert_eq!(pool.get_actor_subscribers(0).unwrap(), vec![1]);
}

#[test]
fn self_subscription_is_cyclic() {
    let mut pool = pool_of(1);
    assert_eq!(
        pool.subscribe(0, vec![0]).map(|_| ()),
        Err(ActorError::CyclicSubscription(0, 0))
    );
    assert_eq!(pool.get_actor_subscribers(0).unwrap(), Vec::<usize>::new());
}

#[test]
fn subscribe_looks_up_every_id_first() {
    let mut pool = pool_of(3);
    assert_eq!(
        pool.subscribe(0, vec![1, 99, 2, 98]).map(|_| ()),
        Err(ActorError::TargetActorNotFound(99))
    );
    assert_eq!(pool.get_actor_subscribers(0).unwrap(), Vec::<usize>::new());
    // an unknown id wins over a subscription the guard would refuse
    assert_eq!(
        pool.subscribe(0, vec![0, 5]).map(|_| ()),
        Err(ActorError::TargetActorNotFound(5))
    );
    assert_eq!(
        pool.subscribe(7, vec![1]).map(|_| ()),
        Err(ActorError::TargetActorNotFound(7))
    );
}

#[test]
fn subscribe_keeps_what_came_before_a_refusal() {
    let mut pool = pool_of(3);
    assert_eq!(
        pool.subscribe(0, vec![1, 0, 2]).map(|_| ()),
        Err(ActorError::CyclicSubscription(0, 0))
    );
    assert_eq!(pool.get_actor_subscribers(0).unwrap(), vec![1]);
}

#[test]
fn unknown_ids_are_reported() {
    let mut pool = pool_of(1);
    let missing = ActorError::TargetActorNotFound(5);
    assert_eq!(pool.get_actor_state(5), Err(missing));
    assert_eq!(pool.get_actor_value(5), Err(missing));
    assert_eq!(pool.get_actor_subscribers(5), Err(missing));
    assert_eq!(pool.update_actor_state(5), Err(missing));
    assert_eq!(pool.message_loop(5, Message::Increment(1)), Err(missing));
    assert!(pool.get_actor_info(5).is_err());
    assert_eq!(pool.detect_cycle(5), Err(missing));
    assert_eq!(pool.detect_cycle_dfs(5), Err(missing));
    assert_eq!(pool.detect_cycle_topological_sort(5), Err(missing));
}

#[test]
fn overflowing_message_is_rejected_and_later_ones_still_apply() {
    let mut pool = pool_of(1);
    pool.message_loop(0, Message::Increment(i32::MAX)).unwrap();
    pool.message_loop(0, Message::Increment(1)).unwrap();
    assert_eq!(pool.get_actor_value(0).unwrap(), i32::MAX);
    pool.message_loop(0, Message::Decrement(2)).unwrap();
    assert_eq!(pool.get_actor_value(0).unwrap(), i32::MAX - 2);
    assert_eq!(pool.get_actor_info(0).unwrap().rejected, vec![Message::Increment(1)]);
}

#[test]
fn full_subscriber_does_not_stop_the_others() {
    let mut pool = pool_of(3);
    pool.subscribe(0, vec![1, 2]).unwrap();
    pool.update_actor_state(1).unwrap();
    pool.actor_list[1].subs.clear();
    for _ in 0..MAILBOX_CAPACITY {
        pool.message_loop(1, Message::Increment(1)).unwrap();
    }
    assert_eq!(
        pool.message_loop(0, Message::Increment(4)),
        Err(ActorError::MailboxOverflow(1))
    );
    assert_eq!(pool.get_actor_value(0).unwrap(), 4);
    assert_eq!(pool.get_actor_value(2).unwrap(), 4);
    assert_eq!(pool.get_actor_info(1).unwrap().mailbox.len(), MAILBOX_CAPACITY);
}

#[test]
fn actor_handles_messages_directly() {
    let mut actor = Actor::new(3);
    assert_eq!(actor.get_id(), 3);
    actor.handle_message(Message::Increment(5)).unwrap();
    actor.handle_message(Message::Decrement(8)).unwrap();
    assert_eq!(actor.get_value(), -3);
    assert_eq!(
        actor.decrement(i32::MAX),
        Err(ActorError::InvalidMessage(Message::Decrement(i32::MAX)))
    );
    assert_eq!(actor.get_value(), -3);
    actor.add_subscriber(4).unwrap();
    assert_eq!(actor.add_subscriber(4), Err(ActorError::ActorAlreadyExists(4)));
    assert_eq!(actor.remove_subscriber(4), Ok(()));
    assert_eq!(actor.remove_subscriber(4), Err(ActorError::TargetActorNotFound(4)));
    assert_eq!(actor.get_subscribers(), Vec::<usize>::new());
}

#[test]
fn names_and_descriptions() {
    assert_eq!(ActorState::Active.to_string(), "Active");
    assert_eq!(ActorState::Inactive.to_string(), "Inactive");
    assert_eq!(ActorError::MailboxOverflow(1).description(), "Mailbox is full");
    assert_eq!(ActorError::TargetActorNotFound(1).description(), "Target actor not found");
}

#[test]
fn messages_and_errors_as_text() {
    assert_eq!(Message::Increment(10).to_string(), "Increment(10)");
    assert_eq!(Message::Decrement(130).to_string(), "Decrement(130)");
    assert_eq!(Message::Increment(-7).to_string(), "Increment(-7)");
    assert_eq!(Message::Increment(0).to_string(), "Increment(0)");
    assert_eq!(Message::Decrement(i32::MIN).to_string(), "Decrement(-2147483648)");
    assert_eq!(ActorError::TargetActorNotFound(42).to_string(), "Target actor not found: 42");
    assert_eq!(ActorError::MailboxOverflow(0).to_string(), "Mailbox is full: 0");
    assert_eq!(ActorError::ActorAlreadyExists(1005).to_string(), "Actor already exists: 1005");
    assert_eq!(
        ActorError::CyclicSubscription(3, 0).to_string(),
        "Subscribing 0 to 3 would form a cycle"
    );
    assert_eq!(
        ActorError::InvalidMessage(Message::Increment(1)).to_string(),
        "Invalid message: Increment(1)"
    );
}
