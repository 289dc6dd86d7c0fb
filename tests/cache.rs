use cacroix::cache::{ContactCache, Lifecycle};
use cacroix::key::ContactKey;

#[derive(Debug, Clone, PartialEq)]
struct Acc {
    overlap: f64,
    normal_impulse: f64,
    tangent_impulse: f64,
    restitution: f64,
}

fn fresh(overlap: f64) -> Acc {
    Acc { overlap, normal_impulse: 0.0, tangent_impulse: 0.0, restitution: 0.2 }
}

fn merge(old: &Acc, mut new_c: Acc) -> Acc {
    new_c.normal_impulse = old.normal_impulse;
    new_c.tangent_impulse = old.tangent_impulse;
    new_c.restitution = 0.0;
    new_c
}

#[test]
fn new_cache_is_empty() {
    let c: ContactCache<Acc> = ContactCache::new();
    assert_eq!(c.len(), 0);
    assert!(!c.contains(ContactKey(1, 0)));
    assert!(c.get(ContactKey(1, 0)).is_none());
    assert_eq!(c.find(ContactKey(1, 0)), None);
}

#[test]
fn refresh_goes_fresh_warm_evicted_apart() {
    let mut c = ContactCache::new();
    let k = ContactKey::new(0, 1);
    assert_eq!(c.refresh(k, Some(fresh(10.0)), &merge), Lifecycle::Fresh);
    assert_eq!(c.len(), 1);
    assert_eq!(c.get(k), Some(&fresh(10.0)));

    c.contact_at_mut(0).normal_impulse = 3.5;
    c.contact_at_mut(0).tangent_impulse = -0.25;
    assert_eq!(c.refresh(k, Some(fresh(8.0)), &merge), Lifecycle::Warm);
    assert_eq!(c.len(), 1);
    let held = c.get(k).unwrap();
    assert_eq!(held.overlap, 8.0);
    assert_eq!(held.normal_impulse, 3.5);
    assert_eq!(held.tangent_impulse, -0.25);
    assert_eq!(held.restitution, 0.0);

    assert_eq!(c.refresh(k, None, &merge), Lifecycle::Evicted);
    assert_eq!(c.len(), 0);
    assert!(!c.contains(k));

    assert_eq!(c.refresh(k, None, &merge), Lifecycle::Apart);
    assert_eq!(c.len(), 0);
}

#[test]
fn warm_start_carries_the_accumulated_impulse() {
    let mut c = ContactCache::new();
    let k = ContactKey::new(1, 0);
    c.refresh(k, Some(fresh(10.0)), &merge);
    let i = c.find(k).unwrap();
    c.contact_at_mut(i).normal_impulse = 125.0;
    c.refresh(k, Some(fresh(9.5)), &merge);
    assert_eq!(c.get(k).unwrap().normal_impulse, 125.0);
    assert_eq!(c.get(k).unwrap().restitution, 0.0);
}

#[test]
fn eviction_keeps_the_order_of_the_others() {
    let mut c = ContactCache::new();
    c.refresh(ContactKey(1, 0), Some(fresh(1.0)), &merge);
    c.refresh(ContactKey(2, 0), Some(fresh(2.0)), &merge);
    c.refresh(ContactKey(2, 1), Some(fresh(3.0)), &merge);
    c.refresh(ContactKey(2, 0), None, &merge);
    assert_eq!(c.len(), 2);
    assert_eq!(c.key_at(0), ContactKey(1, 0));
    assert_eq!(c.key_at(1), ContactKey(2, 1));
    assert_eq!(c.contact_at(1).overlap, 3.0);
    assert_eq!(c.find(ContactKey(2, 1)), Some(1));
}

#[test]
fn warm_entry_stays_in_place() {
    let mut c = ContactCache::new();
    c.refresh(ContactKey(1, 0), Some(fresh(1.0)), &merge);
    c.refresh(ContactKey(2, 0), Some(fresh(2.0)), &merge);
    c.refresh(ContactKey(1, 0), Some(fresh(4.0)), &merge);
    assert_eq!(c.key_at(0), ContactKey(1, 0));
    assert_eq!(c.contact_at(0).overlap, 4.0);
    assert_eq!(c.key_at(1), ContactKey(2, 0));
}

#[test]
fn detect_applies_results_in_order() {
    let mut c = ContactCache::new();
    let keys = vec![ContactKey(1, 0), ContactKey(2, 0), ContactKey(2, 1)];
    c.detect(&keys, vec![Some(fresh(1.0)), None, Some(fresh(3.0))], &merge);
    assert_eq!(c.len(), 2);
    assert_eq!(c.key_at(0), ContactKey(1, 0));
    assert_eq!(c.key_at(1), ContactKey(2, 1));
    c.contact_at_mut(0).normal_impulse = 7.0;
    c.detect(&keys, vec![Some(fresh(0.5)), Some(fresh(2.0)), None], &merge);
    assert_eq!(c.len(), 2);
    assert_eq!(c.key_at(0), ContactKey(1, 0));
    assert_eq!(c.contact_at(0).normal_impulse, 7.0);
    assert_eq!(c.contact_at(0).overlap, 0.5);
    assert_eq!(c.key_at(1), ContactKey(2, 0));
    assert!(!c.contains(ContactKey(2, 1)));
}

#[test]
fn sweep_over_three_bodies() {
    let mut c = ContactCache::new();
    // pairs(3) is (1,0), (2,0), (2,1)
    c.sweep(3, vec![None, Some(fresh(10.0)), None], &merge);
    assert_eq!(c.len(), 1);
    assert_eq!(c.get(ContactKey::new(0, 2)).unwrap().overlap, 10.0);
    c.sweep(3, vec![None, None, None], &merge);
    assert_eq!(c.len(), 0);
}

#[test]
fn sweep_leaves_keys_outside_the_bodies() {
    let mut c = ContactCache::new();
    c.refresh(ContactKey(7, 5), Some(fresh(1.0)), &merge);
    c.sweep(2, vec![Some(fresh(2.0))], &merge);
    assert_eq!(c.len(), 2);
    assert_eq!(c.key_at(0), ContactKey(7, 5));
    assert_eq!(c.key_at(1), ContactKey(1, 0));
}

#[test]
fn sweep_appends_new_pairs_after_survivors_in_sweep_order() {
    let mut c = ContactCache::new();
    // pairs(4): (1,0) (2,0) (2,1) (3,0) (3,1) (3,2)
    c.sweep(4, vec![None, None, None, Some(fresh(1.0)), None, None], &merge);
    assert_eq!(c.key_at(0), ContactKey(3, 0));
    c.sweep(
        4,
        vec![Some(fresh(2.0)), None, Some(fresh(3.0)), Some(fresh(4.0)), None, Some(fresh(5.0))],
        &merge,
    );
    assert_eq!(c.len(), 4);
    assert_eq!(c.key_at(0), ContactKey(3, 0));
    assert_eq!(c.key_at(1), ContactKey(1, 0));
    assert_eq!(c.key_at(2), ContactKey(2, 1));
    assert_eq!(c.key_at(3), ContactKey(3, 2));
    assert_eq!(c.contact_at(0).overlap, 4.0);
    assert_eq!(c.contact_at(0).restitution, 0.0);
    assert_eq!(c.contact_at(1).restitution, 0.2);
}

#[test]
fn sweep_of_one_body_changes_nothing() {
    let mut c: ContactCache<Acc> = ContactCache::new();
    c.sweep(1, vec![], &merge);
    assert_eq!(c.len(), 0);
}

#[test]
fn eviction_on_the_very_next_sweep() {
    let mut c = ContactCache::new();
    c.sweep(2, vec![Some(fresh(10.0))], &merge);
    assert!(c.contains(ContactKey::new(0, 1)));
    c.sweep(2, vec![None], &merge);
    assert!(!c.contains(ContactKey::new(0, 1)));
    assert!(c.get(ContactKey::new(1, 0)).is_none());
}
