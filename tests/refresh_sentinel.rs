use sentinel::refresh_sentinel::RefreshSentinel;

#[test]
fn add() {
    let mut sentinel: RefreshSentinel<i32, u32> = RefreshSentinel::new(1);

    assert!(sentinel.add(2, 3).is_some());
    assert_eq!(sentinel.contains_key(&1), false);
    assert_eq!(sentinel.contains_key(&2), true);
    assert_eq!(sentinel.is_quorum_reached(&1), false);
    assert_eq!(sentinel.is_quorum_reached(&2), true);
    assert!(sentinel.add(1, 3).is_some());
    assert_eq!(sentinel.contains_key(&1), true);
    assert_eq!(sentinel.is_quorum_reached(&1), true);
    assert!(sentinel.add(1, 3).is_some());
    assert_eq!(sentinel.contains_key(&1), true);
    assert_eq!(sentinel.is_quorum_reached(&1), true);

    let (key, responses) = sentinel.get(&1).unwrap();

    assert_eq!(key, 1);
    assert_eq!(responses.len(), 2);
    assert_eq!(responses[0], 3);
    assert_eq!(responses[1], 3);

    let (key, responses) = sentinel.get(&2).unwrap();

    assert_eq!(key, 2);
    assert_eq!(responses.len(), 1);
    assert_eq!(responses[0], 3);
}

#[test]
fn add_single_value_quorum() {
    let quorum_size: usize = 19;
    let mut sentinel: RefreshSentinel<i32, u32> = RefreshSentinel::new(quorum_size);
    let key = rand::random::<i32>();
    let value = rand::random::<u32>();
    for i in 0..quorum_size - 1 {
        assert!(sentinel.add(key, value).is_none());
        let key_value = sentinel.get(&key).unwrap();
        assert_eq!(key_value.0, key);
        assert_eq!(key_value.1.len(), i + 1);
        for response in key_value.1 {
            assert_eq!(response, value);
        }
        assert_eq!(sentinel.is_quorum_reached(&key), false);
    }
    assert!(sentinel.add(key, value).is_some());
    assert_eq!(sentinel.is_quorum_reached(&key), true);
    let key_value = sentinel.get(&key).unwrap();
    assert_eq!(key_value.0, key);
    assert_eq!(key_value.1.len(), quorum_size);
    for response in key_value.1 {
        assert_eq!(response, value);
    }
}

#[test]
fn add_multiple_values_quorum() {
    let quorum_size: usize = 19;
    let mut sentinel: RefreshSentinel<i32, u32> = RefreshSentinel::new(quorum_size);
    let key = rand::random::<i32>();
    for _ in 0..quorum_size - 1 {
        assert!(sentinel.add(key, rand::random::<u32>()).is_none());
        assert_eq!(sentinel.is_quorum_reached(&key), false);
    }
    assert!(sentinel.add(key, rand::random::<u32>()).is_some());
    assert_eq!(sentinel.is_quorum_reached(&key), true);
}

#[test]
fn add_multiple_keys_quorum() {
    let quorum_size: usize = 19;
    let mut sentinel: RefreshSentinel<i32, u32> = RefreshSentinel::new(quorum_size);
    let key = rand::random::<i32>();
    let mut noise_keys: Vec<i32> = Vec::with_capacity(5);
    while noise_keys.len() < 5 {
        let noise_key = rand::random::<i32>();
        if noise_key != key {
            noise_keys.push(noise_key);
        }
    }
    for _ in 0..quorum_size - 1 {
        for noise_key in noise_keys.iter() {
            sentinel.add(noise_key.clone(), rand::random::<u32>());
        }
        assert!(sentinel.add(key, rand::random::<u32>()).is_none());
        assert_eq!(sentinel.is_quorum_reached(&key), false);
    }
    assert!(sentinel.add(key, rand::random::<u32>()).is_some());
    assert_eq!(sentinel.is_quorum_reached(&key), true);
}

#[test]
fn delete() {
    let mut sentinel: RefreshSentinel<i32, u32> = RefreshSentinel::new(2);

    assert!(sentinel.add(1, 1).is_none());
    assert_eq!(sentinel.contains_key(&1), true);
    assert_eq!(sentinel.is_quorum_reached(&1), false);

    let (key, responses) = sentinel.get(&1).unwrap();

    assert_eq!(key, 1);
    assert_eq!(responses.len(), 1);
    assert_eq!(responses[0], 1);

    sentinel.delete(&1);

    let option = sentinel.get(&1);

    assert!(option.is_none());

    assert!(sentinel.add(1, 1).is_none());
    assert_eq!(sentinel.contains_key(&1), true);
    assert_eq!(sentinel.is_quorum_reached(&1), false);
    assert!(sentinel.add(1, 1).is_some());
    assert_eq!(sentinel.contains_key(&1), true);
    assert_eq!(sentinel.is_quorum_reached(&1), true);

    let (key, responses) = sentinel.get(&1).unwrap();

    assert_eq!(key, 1);
    assert_eq!(responses.len(), 2);
    assert_eq!(responses[0], 1);
    assert_eq!(responses[1], 1);

    sentinel.delete(&1);

    let option = sentinel.get(&1);

    assert!(option.is_none());
}

#[test]
fn fill() {
    let mut sentinel: RefreshSentinel<i32, u32> = RefreshSentinel::new(1);

    for count in 0..1000 {
        assert!(sentinel.add(count, 1).is_some());
        assert_eq!(sentinel.contains_key(&count), true);
        assert_eq!(sentinel.is_quorum_reached(&count), true);
    }

    for count in 0..1000 {
        let (key, responses) = sentinel.get(&count).unwrap();

        assert_eq!(key, count);
        assert_eq!(responses.len(), 1);
        assert_eq!(responses[0], 1);
    }
}

#[test]
fn cache_removals() {
    let mut sentinel: RefreshSentinel<i32, u32> = RefreshSentinel::new(2);

    for count in 0..1000 {
        assert!(sentinel.add(count, 1).is_none());
        assert_eq!(sentinel.contains_key(&count), true);
        assert_eq!(sentinel.is_quorum_reached(&count), false);

        let (key, responses) = sentinel.get(&count).unwrap();

        assert_eq!(key, count);
        assert_eq!(responses.len(), 1);
        assert_eq!(responses[0], 1);
        assert_eq!(sentinel.cache_size(), count as usize + 1);
    }

    assert!(sentinel.add(1000, 1).is_none());
    assert_eq!(sentinel.contains_key(&1000), true);
    assert_eq!(sentinel.is_quorum_reached(&1000), false);
    assert_eq!(sentinel.cache_size(), 1000);

    for count in 0..1000 {
        let option = sentinel.get(&count);

        assert!(option.is_none());

        assert!(sentinel.add(count + 1001, 1).is_none());
        assert_eq!(sentinel.contains_key(&(count + 1001)), true);
        assert_eq!(sentinel.is_quorum_reached(&(count + 1001)), false);
        assert_eq!(sentinel.cache_size(), 1000);
    }
}

#[test]
fn set_quorum_size() {
    let mut sentinel: RefreshSentinel<i32, u32> = RefreshSentinel::new(2);
    let random = rand::random::<usize>();
    sentinel.set_quorum(random);
    assert_eq!(random, sentinel.quorum_size());
}

#[test]
fn zero_quorum_resolves_on_first_value() {
    let mut sentinel: RefreshSentinel<i32, u32> = RefreshSentinel::new(0);
    let (key, values) = sentinel.add(7, 9).unwrap();
    assert_eq!(key, 7);
    assert_eq!(values, vec![9]);
}

#[test]
fn duplicate_values_are_kept_in_order() {
    let mut sentinel: RefreshSentinel<i32, u32> = RefreshSentinel::new(3);
    assert!(sentinel.add(1, 5).is_none());
    assert!(sentinel.add(1, 6).is_none());
    let (_, values) = sentinel.add(1, 5).unwrap();
    assert_eq!(values, vec![5, 6, 5]);
}

#[test]
fn eviction_drops_least_recently_used() {
    let mut sentinel: RefreshSentinel<i32, u32> = RefreshSentinel::with_capacity(5, 2);
    assert!(sentinel.add(1, 1).is_none());
    assert!(sentinel.add(2, 1).is_none());
    // Touching 1 makes 2 the least recently used.
    assert!(sentinel.get(&1).is_some());
    assert!(sentinel.add(3, 1).is_none());
    assert_eq!(sentinel.contains_key(&1), true);
    assert_eq!(sentinel.contains_key(&2), false);
    assert_eq!(sentinel.contains_key(&3), true);
    assert_eq!(sentinel.cache_size(), 2);
}
