use actor_pool::{ActorPool, ActorState};

#[test]
fn test_create_test_create_multiple_actors_get_its_values() {
    let mut actors = ActorPool::new();
    for i in 0..10 {
        let id = actors.create_actor();

        assert_eq!(id, i);

        let value = actors.get_actor_value(id).unwrap();
        assert_eq!(value, 0);

        let state = actors.get_actor_state(id).unwrap();
        assert_eq!(state, ActorState::Active);

        println!("id: {}, value: {}, state: {:?}", id, value, state);
    }
}
