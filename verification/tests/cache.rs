use chatlib::{Message, UnreadCache};

fn message(timestamp: i64, from: usize, to: usize, content: &str) -> Message {
    Message::stamped(timestamp, from, to, String::from(content))
}

fn contents(cache: &UnreadCache, token: usize) -> Option<Vec<String>> {
    cache.extract(&token).map(|queue| queue.iter().map(|m| m.content.clone()).collect())
}

fn texts(list: &[&str]) -> Option<Vec<String>> {
    Some(list.iter().map(|text| String::from(*text)).collect())
}

#[test]
fn new_cache_is_empty() {
    let cache = UnreadCache::new(100, 300);
    assert!(cache.empty());
    assert_eq!(cache.size(), 0);
    assert_eq!(cache.capacity(), 100);
    assert_eq!(cache.lifetime(), 300);
    assert_eq!(cache.extract(&1), None);
    assert_eq!(cache.oldest(), None);
}

#[test]
fn extract_returns_inserts_in_order() {
    let mut cache = UnreadCache::new(10, 300);
    cache.insert(message(30, 1, 2, "first"));
    cache.insert(message(10, 3, 2, "second"));
    cache.insert(message(20, 1, 2, "third"));
    assert_eq!(
        cache.extract(&2),
        Some(&vec![message(30, 1, 2, "first"), message(10, 3, 2, "second"), message(20, 1, 2, "third")])
    );
    assert!(!cache.empty());
}

#[test]
fn queues_are_kept_by_recipient() {
    let mut cache = UnreadCache::new(10, 300);
    cache.insert(message(1, 9, 2, "a"));
    cache.insert(message(2, 9, 3, "b"));
    cache.insert(message(3, 9, 2, "c"));
    assert_eq!(contents(&cache, 2), texts(&["a", "c"]));
    assert_eq!(contents(&cache, 3), texts(&["b"]));
    assert_eq!(contents(&cache, 9), None);
}

#[test]
fn equal_messages_are_each_kept() {
    let mut cache = UnreadCache::new(10, 300);
    cache.insert(message(5, 1, 2, "same"));
    cache.insert(message(5, 1, 2, "same"));
    assert_eq!(contents(&cache, 2), texts(&["same", "same"]));
    cache.expire_at(Some(0), 5);
    assert_eq!(contents(&cache, 2), texts(&["same", "same"]));
    cache.expire_at(Some(0), 6);
    assert!(cache.empty());
}

#[test]
fn full_cache_evicts_the_oldest() {
    let mut cache = UnreadCache::new(2, 300);
    cache.insert(message(10, 1, 1, "kept"));
    cache.insert(message(5, 1, 2, "oldest"));
    cache.insert(message(7, 1, 1, "new"));
    assert_eq!(contents(&cache, 1), texts(&["kept", "new"]));
    assert_eq!(contents(&cache, 2), None);
    assert_eq!(cache.oldest(), Some(7));
}

#[test]
fn size_never_exceeds_capacity() {
    let mut cache = UnreadCache::new(3, 300);
    for at in 0..20usize {
        cache.insert(message(at as i64, 1, at % 4, "m"));
        let held: usize = (0..4usize).map(|token| cache.extract(&token).map_or(0, |q| q.len())).sum();
        assert!(held <= 3);
        assert_eq!(held, if at < 3 { at + 1 } else { 3 });
        assert_eq!(cache.size(), held);
    }
    assert_eq!(cache.oldest(), Some(17));
}

#[test]
fn eviction_takes_from_the_middle_of_a_queue() {
    let mut cache = UnreadCache::new(3, 300);
    cache.insert(message(10, 1, 4, "a"));
    cache.insert(message(1, 1, 4, "b"));
    cache.insert(message(20, 1, 4, "c"));
    cache.insert(message(15, 1, 4, "d"));
    assert_eq!(contents(&cache, 4), texts(&["a", "c", "d"]));
}

#[test]
fn eviction_may_take_the_newcomer_s_elder_only() {
    let mut cache = UnreadCache::new(1, 300);
    cache.insert(message(100, 1, 2, "old"));
    cache.insert(message(1, 1, 2, "older but new"));
    assert_eq!(contents(&cache, 2), texts(&["older but new"]));
}

#[test]
fn eviction_among_equal_ages_takes_one() {
    let mut cache = UnreadCache::new(2, 300);
    cache.insert(message(5, 1, 1, "x"));
    cache.insert(message(5, 1, 2, "y"));
    cache.insert(message(9, 1, 3, "z"));
    let one = cache.extract(&1).is_some();
    let two = cache.extract(&2).is_some();
    assert!(one != two);
    assert_eq!(contents(&cache, 3), texts(&["z"]));
}

#[test]
fn cache_without_room_takes_nothing() {
    let mut cache = UnreadCache::new(0, 300);
    cache.insert(message(1, 1, 2, "lost"));
    assert!(cache.empty());
    assert_eq!(cache.size(), 0);
    assert_eq!(cache.extract(&2), None);
}

#[test]
fn remove_forgets_the_queue() {
    let mut cache = UnreadCache::new(10, 300);
    cache.insert(message(1, 1, 2, "a"));
    cache.insert(message(2, 1, 2, "b"));
    cache.insert(message(3, 1, 3, "c"));
    assert_eq!(cache.size(), 3);
    cache.remove(&2);
    assert_eq!(cache.size(), 1);
    assert_eq!(cache.extract(&2), None);
    assert_eq!(contents(&cache, 3), texts(&["c"]));
    assert_eq!(cache.oldest(), Some(3));
    cache.remove(&3);
    assert!(cache.empty());
    assert_eq!(cache.oldest(), None);
}

#[test]
fn remove_frees_room() {
    let mut cache = UnreadCache::new(3, 300);
    cache.insert(message(1, 1, 2, "a"));
    cache.insert(message(2, 1, 2, "b"));
    cache.insert(message(3, 1, 3, "c"));
    cache.remove(&2);
    cache.insert(message(4, 1, 5, "d"));
    cache.insert(message(5, 1, 5, "e"));
    assert_eq!(contents(&cache, 3), texts(&["c"]));
    assert_eq!(contents(&cache, 5), texts(&["d", "e"]));
    cache.insert(message(6, 1, 5, "f"));
    assert_eq!(contents(&cache, 3), None);
    assert_eq!(contents(&cache, 5), texts(&["d", "e", "f"]));
}

#[test]
fn remove_of_unknown_token_changes_nothing() {
    let mut cache = UnreadCache::new(10, 300);
    cache.insert(message(1, 1, 2, "a"));
    cache.remove(&7);
    assert_eq!(contents(&cache, 2), texts(&["a"]));
    let mut none = UnreadCache::new(10, 300);
    none.remove(&7);
    assert!(none.empty());
}

#[test]
fn queue_can_be_filled_again_after_remove() {
    let mut cache = UnreadCache::new(10, 300);
    cache.insert(message(1, 1, 2, "a"));
    cache.remove(&2);
    cache.insert(message(2, 1, 2, "b"));
    assert_eq!(contents(&cache, 2), texts(&["b"]));
    assert_eq!(cache.oldest(), Some(2));
}

#[test]
fn expire_without_duration_removes_no_message() {
    let mut cache = UnreadCache::new(10, 300);
    cache.insert(message(i64::MIN, 1, 2, "ancient"));
    cache.insert(message(0, 1, 2, "epoch"));
    cache.insert(message(5, 1, 3, "c"));
    cache.remove(&3);
    cache.expire(None);
    cache.expire_at(None, i64::MAX);
    assert_eq!(cache.size(), 2);
    assert_eq!(contents(&cache, 2), texts(&["ancient", "epoch"]));
    assert_eq!(cache.oldest(), Some(i64::MIN));
}

#[test]
fn expire_at_removes_exactly_the_stale() {
    let mut cache = UnreadCache::new(10, 300);
    cache.insert(message(1000, 1, 2, "a"));
    cache.insert(message(3000, 1, 2, "b"));
    cache.insert(message(2000, 1, 2, "c"));
    cache.insert(message(2000, 1, 3, "d"));
    cache.insert(message(2100, 1, 4, "e"));
    cache.expire_at(Some(500), 2600);
    assert_eq!(cache.size(), 2);
    assert_eq!(contents(&cache, 2), texts(&["b"]));
    assert_eq!(contents(&cache, 3), None);
    assert_eq!(contents(&cache, 4), texts(&["e"]));
    assert_eq!(cache.oldest(), Some(2100));
}

#[test]
fn expire_at_keeps_a_message_of_exactly_the_allowed_age() {
    let mut cache = UnreadCache::new(10, 300);
    cache.insert(message(2000, 1, 2, "edge"));
    cache.expire_at(Some(500), 2500);
    assert_eq!(contents(&cache, 2), texts(&["edge"]));
    cache.expire_at(Some(500), 2501);
    assert!(cache.empty());
}

#[test]
fn expire_at_does_not_overflow() {
    let mut cache = UnreadCache::new(10, 300);
    cache.insert(message(i64::MAX, 1, 2, "late"));
    cache.insert(message(i64::MIN, 1, 3, "early"));
    cache.expire_at(Some(i64::MAX), i64::MAX);
    assert_eq!(contents(&cache, 2), texts(&["late"]));
    assert_eq!(contents(&cache, 3), None);
    cache.expire_at(Some(i64::MIN), i64::MIN);
    assert_eq!(contents(&cache, 2), texts(&["late"]));
    cache.expire_at(Some(i64::MIN), 0);
    assert!(cache.empty());
}

#[test]
fn expire_at_with_negative_duration() {
    let mut cache = UnreadCache::new(10, 300);
    cache.insert(message(100, 1, 2, "a"));
    cache.expire_at(Some(-10), 90);
    assert_eq!(contents(&cache, 2), texts(&["a"]));
    cache.expire_at(Some(-10), 91);
    assert!(cache.empty());
}

#[test]
fn expire_frees_room() {
    let mut cache = UnreadCache::new(2, 300);
    cache.insert(message(1, 1, 2, "a"));
    cache.insert(message(2, 1, 2, "b"));
    cache.expire_at(Some(0), 2);
    cache.insert(message(3, 1, 3, "c"));
    assert_eq!(contents(&cache, 2), texts(&["b"]));
    assert_eq!(contents(&cache, 3), texts(&["c"]));
}

#[test]
fn expire_goes_by_the_clock() {
    let mut cache = UnreadCache::new(10, 300);
    cache.insert(message(0, 1, 2, "from the epoch"));
    cache.insert(Message::generate(1, 3, String::from("from now")));
    cache.expire(Some(60_000));
    assert_eq!(contents(&cache, 2), None);
    assert_eq!(contents(&cache, 3), texts(&["from now"]));
    cache.expire(Some(i64::MIN));
    assert!(cache.empty());
}

#[test]
fn oldest_is_the_least_timestamp() {
    let mut cache = UnreadCache::new(10, 300);
    cache.insert(message(30, 1, 2, "a"));
    cache.insert(message(-4, 1, 3, "b"));
    cache.insert(message(12, 1, 2, "c"));
    assert_eq!(cache.oldest(), Some(-4));
}

#[test]
fn empty_tells_whether_anything_waits() {
    let mut cache = UnreadCache::new(10, 300);
    assert!(cache.empty());
    cache.insert(message(1, 1, 2, "a"));
    assert!(!cache.empty());
    cache.remove(&2);
    assert!(cache.empty());
}
