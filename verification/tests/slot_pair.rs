use std::cell::Cell;
use std::cmp::Ordering;
use std::collections::hash_map::DefaultHasher;
use std::hash::{Hash, Hasher};
use std::ops::Deref;
use thread_safe_var::{Reader, SlotPairTSV, ThreadSafeVar, ThreadSafeVarRef};

#[test]
fn can_read() {
    let msg = "Hi!".to_string();
    let tsv = SlotPairTSV::new(msg);
    assert_eq!("Hi!", tsv.get().deref());
    assert_eq!("Hi!", tsv.get().deref());
    assert_eq!(0, tsv.get().version());
}

#[test]
fn can_write() {
    let tsv = SlotPairTSV::new("Hi!".to_string());
    assert_eq!(0, tsv.get().version());
    assert_eq!("Hi!", *tsv.get());
    assert_eq!("Hi!", *tsv.get());

    let new_version = tsv.set("Hello!".to_string());
    assert_eq!(1, new_version);
    assert_eq!("Hello!", *tsv.get());
    assert_eq!("Hello!", *tsv.get());

    let new_version = tsv.set("Bye!".to_string());
    assert_eq!(2, new_version);
    assert_eq!("Bye!", *tsv.get());
    assert_eq!("Bye!", *tsv.get());
}

#[test]
fn compare_and_set_success() {
    let tsv = SlotPairTSV::new("Hi!".to_string());
    assert_eq!(0, tsv.get().version());

    // Should succeed when version matches
    let result = tsv.compare_and_set("Hello!".to_string(), 0);
    assert!(result.is_ok());
    assert_eq!(1, result.unwrap());
    assert_eq!("Hello!", *tsv.get());
    assert_eq!(1, tsv.get().version());
}

#[test]
fn compare_and_set_failure() {
    let tsv = SlotPairTSV::new("Hi!".to_string());
    assert_eq!(0, tsv.get().version());

    // Should fail when version doesn't match
    let result = tsv.compare_and_set("Hello!".to_string(), 999);
    assert!(result.is_err());
    let (returned_data, current_version) = result.unwrap_err();
    assert_eq!("Hello!", returned_data);
    assert_eq!(0, current_version);
    // Value should be unchanged
    assert_eq!("Hi!", *tsv.get());
    assert_eq!(0, tsv.get().version());
}

#[test]
fn update_basic() {
    let tsv = SlotPairTSV::new(10i32);
    assert_eq!(10, *tsv.get());

    let new_version = tsv.update(|x| x + 5);
    assert_eq!(1, new_version);
    assert_eq!(15, *tsv.get());

    let new_version = tsv.update(|x| x * 2);
    assert_eq!(2, new_version);
    assert_eq!(30, *tsv.get());
}

#[test]
fn update_starts_over_after_a_conflict() {
    let tsv = SlotPairTSV::new(10i32);
    let calls = Cell::new(0);
    let new_version = tsv.update(|x| {
        calls.set(calls.get() + 1);
        if calls.get() <= 3 {
            tsv.set(100 * calls.get());
        }
        x + 1
    });
    assert_eq!(4, calls.get());
    assert_eq!(4, new_version);
    assert_eq!(301, *tsv.get());
    assert_eq!(4, tsv.get().version());
}

#[test]
fn updates_all_count() {
    let tsv = SlotPairTSV::new(0u32);
    for i in 0..1000u32 {
        assert_eq!(u64::from(i) + 1, tsv.update(|x| x + 1));
    }
    assert_eq!(1000, *tsv.get());
    assert_eq!(1000, tsv.get().version());
}

#[test]
fn compare_and_set_with_a_version_that_was_replaced() {
    let tsv = SlotPairTSV::new(1i32);
    let seen = tsv.get();
    assert_eq!(1, tsv.set(2));
    assert_eq!(Err((3, 1)), tsv.compare_and_set(3, seen.version()));
    assert_eq!(2, *tsv.get());
    assert_eq!(Ok(2), tsv.compare_and_set(3, 1));
    assert_eq!(3, *tsv.get());
    assert_eq!(Err((4, 2)), tsv.compare_and_set(4, u64::MAX));
}

#[test]
fn readers_keep_what_they_read() {
    let tsv = SlotPairTSV::new("a".to_string());
    let first = tsv.get();
    tsv.set("b".to_string());
    let second = tsv.get();
    let copy = second.clone();
    tsv.set("c".to_string());
    tsv.set("d".to_string());
    assert_eq!(("a", 0), (first.deref().as_str(), first.version()));
    assert_eq!(("b", 1), (second.deref().as_str(), second.version()));
    assert_eq!(("b", 1), (copy.get().as_str(), copy.version()));
    assert_eq!(("d", 3), (tsv.get().as_str(), tsv.get().version()));
}

#[test]
fn versions_never_go_back() {
    let tsv = SlotPairTSV::new(0u64);
    let mut last = 0;
    for i in 1..100u64 {
        assert_eq!(i, tsv.set(i));
        let reader = tsv.get();
        assert!(last < reader.version());
        assert_eq!(reader.version(), *reader);
        last = reader.version();
    }
}

#[test]
fn cache_is_filled_used_and_renewed() {
    let tsv = SlotPairTSV::new("a".to_string());
    let mut cache: Option<Reader<String>> = None;

    assert_eq!("a", *tsv.get_with(&mut cache));
    let kept = cache.clone().unwrap();
    let again = tsv.get_with(&mut cache);
    assert!(std::ptr::eq(kept.deref(), again.deref()));
    assert_eq!(0, cache.as_ref().unwrap().version());

    tsv.set("b".to_string());
    let renewed = tsv.get_with(&mut cache);
    assert_eq!("b", *renewed);
    assert_eq!(1, renewed.version());
    assert_eq!("b", **cache.as_ref().unwrap());
    assert_eq!(1, cache.as_ref().unwrap().version());
}

#[test]
fn values_are_dropped_with_their_last_reader() {
    let token = std::sync::Arc::new(());
    let tsv = SlotPairTSV::new(token.clone());
    assert_eq!(2, std::sync::Arc::strong_count(&token));
    let reader = tsv.get();
    tsv.set(std::sync::Arc::new(()));
    tsv.set(std::sync::Arc::new(()));
    assert_eq!(2, std::sync::Arc::strong_count(&token));
    drop(reader);
    assert_eq!(1, std::sync::Arc::strong_count(&token));
}

fn hash_of<V: Hash>(value: &V) -> u64 {
    let mut hasher = DefaultHasher::new();
    value.hash(&mut hasher);
    hasher.finish()
}

#[test]
fn readers_compare_by_value() {
    let tsv = SlotPairTSV::new(7i32);
    let first = tsv.get();
    tsv.set(7);
    let second = tsv.get();
    tsv.set(8);
    let third = tsv.get();
    assert!(first == second);
    assert!(first != third);
    assert!(first < third);
    assert_eq!(Some(Ordering::Greater), third.partial_cmp(&first));
    assert_eq!(Ordering::Less, first.compare(&third));
    assert_eq!(Ordering::Equal, first.compare(&second));
    assert_eq!(hash_of(&7i32), hash_of(&first));
    assert_eq!(hash_of(&first), hash_of(&second));
    assert_eq!("7", format!("{:?}", first));
}

#[test]
fn variables_compare_by_current_value() {
    let a = SlotPairTSV::new("x".to_string());
    let b = SlotPairTSV::new("y".to_string());
    assert!(a != b);
    assert!(a < b);
    assert_eq!(Ordering::Less, a.compare(&b));
    a.set("y".to_string());
    assert!(a == b);
    assert_eq!(Ordering::Equal, a.compare(&b));
    assert_eq!(Some(Ordering::Equal), a.partial_cmp(&b));
    assert_eq!(hash_of(&"y".to_string()), hash_of(&a));
    assert_eq!("\"y\"", format!("{:?}", a));
}

#[test]
fn one_of_two_compare_and_sets_wins() {
    let tsv = SlotPairTSV::new("a");
    let seen = tsv.get().version();
    assert_eq!(Ok(1), tsv.compare_and_set("b", seen));
    assert_eq!(Err(("c", 1)), tsv.compare_and_set("c", seen));
    assert_eq!("b", *tsv.get());
}

#[test]
fn held_readers_do_not_hold_up_writers() {
    let tsv = SlotPairTSV::new(0u64);
    let readers: Vec<Reader<u64>> = (1..=20)
        .map(|i| {
            let reader = tsv.get();
            assert_eq!(i, tsv.set(i));
            reader
        })
        .collect();
    for (i, reader) in readers.iter().enumerate() {
        assert_eq!(i as u64, **reader);
        assert_eq!(i as u64, reader.version());
    }
}

fn can_be_shared<V: Sync + Send>(_: &V) {}

#[test]
fn variables_and_readers_can_be_shared() {
    let tsv = SlotPairTSV::new("a".to_string());
    can_be_shared(&tsv);
    can_be_shared(&tsv.get());
}

/// When it is dropped, it notes the version that is current then.
struct Probe {
    tsv: std::sync::Weak<SlotPairTSV<Probe>>,
    noted: std::sync::Arc<std::sync::Mutex<Vec<u64>>>,
}

impl Drop for Probe {
    fn drop(&mut self) {
        if let Some(tsv) = self.tsv.upgrade() {
            self.noted.lock().unwrap().push(tsv.get().version());
        }
    }
}

#[test]
fn values_are_dropped_after_their_successors_are_current() {
    let noted = std::sync::Arc::new(std::sync::Mutex::new(Vec::new()));
    let tsv = std::sync::Arc::new_cyclic(|tsv| {
        SlotPairTSV::new(Probe { tsv: tsv.clone(), noted: noted.clone() })
    });
    for _ in 0..4 {
        tsv.set(Probe { tsv: std::sync::Arc::downgrade(&tsv), noted: noted.clone() });
    }
    assert_eq!(vec![2, 3, 4], *noted.lock().unwrap());
}

#[test]
fn sets_are_numbered_without_gaps() {
    let tsv = SlotPairTSV::new(0);
    let versions: Vec<u64> = (1..=50).map(|value| tsv.set(value)).collect();
    assert_eq!((1..=50).collect::<Vec<u64>>(), versions);
    assert_eq!(50, *tsv.get());
    assert_eq!(50, tsv.get().version());
}

#[test]
fn variables_do_not_answer_for_each_other() {
    let first = SlotPairTSV::new("a");
    let second = SlotPairTSV::new("a");
    assert_eq!(1, first.set("b"));
    assert_eq!(Err(("c", 0)), second.compare_and_set("c", 1));
    assert_eq!((&"a", 0), (second.get().get(), second.get().version()));
    assert_eq!((&"b", 1), (first.get().get(), first.get().version()));
    assert!(first != second);
    assert_eq!(Some(Ordering::Greater), first.partial_cmp(&second));
}

#[test]
fn what_was_seen_is_replaced_once() {
    let tsv = SlotPairTSV::new(10);
    let seen = tsv.get();
    assert_eq!(Some(1), tsv.replace_seen(&seen, *seen + 1));
    assert_eq!(None, tsv.replace_seen(&seen, *seen + 2));
    assert_eq!((11, 1), (*tsv.get(), tsv.get().version()));
    assert_eq!(Some(2), tsv.replace_seen(&tsv.get(), 20));
    assert_eq!((20, 2), (*tsv.get(), tsv.get().version()));
}

#[test]
fn variables_are_shown_and_hashed_as_their_values() {
    let tsv = SlotPairTSV::new("Hello!".to_string());
    tsv.set("Hi!".to_string());
    assert_eq!("\"Hi!\"", format!("{:?}", tsv));
    assert_eq!("\"Hi!\"", format!("{:?}", tsv.get()));
    assert_eq!(hash_of(&"Hi!".to_string()), hash_of(&tsv));
    assert_eq!(hash_of(&"Hi!".to_string()), hash_of(&tsv.get()));
    assert_eq!(hash_of(&SlotPairTSV::new("Hi!".to_string())), hash_of(&tsv));
}

#[test]
fn a_write_is_numbered_after_what_was_current() {
    let tsv = SlotPairTSV::new("a");
    let seen = tsv.get();
    assert_eq!(1, tsv.set("theirs"));
    assert_eq!(seen.version() + 2, tsv.set("mine"));
    assert_eq!((&"mine", 2), (tsv.get().get(), tsv.get().version()));
}
