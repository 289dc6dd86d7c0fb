use cacroix::key::ContactKey;
use cacroix::kind::Type;
use cacroix::sweep::pairs;

#[test]
fn kind_is_static() {
    assert!(Type::Static.is_static());
    assert!(!Type::Dynamic.is_static());
}

#[test]
fn set_static_is_one_way_and_idempotent() {
    let mut t = Type::Dynamic;
    t.set_static();
    assert_eq!(t, Type::Static);
    t.set_static();
    assert_eq!(t, Type::Static);
}

#[test]
fn key_is_unordered() {
    assert_eq!(ContactKey::new(3, 5), ContactKey::new(5, 3));
    assert_eq!(ContactKey::new(3, 5), ContactKey(5, 3));
    assert_eq!(ContactKey::new(0, 1), ContactKey(1, 0));
}

#[test]
fn keys_of_different_pairs_differ() {
    assert_ne!(ContactKey::new(1, 2), ContactKey::new(1, 3));
    assert_ne!(ContactKey::new(0, 2), ContactKey::new(1, 2));
}

#[test]
fn pairs_of_no_or_one_body() {
    assert!(pairs(0).is_empty());
    assert!(pairs(1).is_empty());
}

#[test]
fn pairs_of_two_bodies() {
    assert_eq!(pairs(2), vec![ContactKey(1, 0)]);
}

#[test]
fn pairs_of_four_bodies_in_sweep_order() {
    assert_eq!(
        pairs(4),
        vec![
            ContactKey(1, 0),
            ContactKey(2, 0),
            ContactKey(2, 1),
            ContactKey(3, 0),
            ContactKey(3, 1),
            ContactKey(3, 2),
        ]
    );
}

#[test]
fn pairs_count_is_triangular() {
    for n in 0..20usize {
        let p = pairs(n);
        assert_eq!(p.len(), n * n.saturating_sub(1) / 2);
        for k in &p {
            assert!(k.0 > k.1 && k.0 < n);
        }
        for w in p.windows(2) {
            assert!((w[0].0, w[0].1) < (w[1].0, w[1].1));
        }
    }
}
