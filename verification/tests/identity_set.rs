use rust_bot::basics::card::Identity;
use rust_bot::basics::identity_set::IdentitySet;

fn every_id(num_suits: usize) -> Vec<Identity> {
    (0..num_suits).flat_map(|suit_index| (1..=5).map(move |rank| Identity { suit_index, rank })).collect()
}

#[test]
fn it_inserts() {
    let ids = IdentitySet::empty();
    let id = Identity { suit_index: 2, rank: 4 };
    let new_ids = ids.with(id);

    assert!(new_ids.contains(id));
    assert_eq!(new_ids.len(), 1);
    assert_eq!(ids.len(), 0);
}

#[test]
fn it_froms() {
    let ids = IdentitySet::from_iter(vec![
        Identity { suit_index: 0, rank: 1 },
        Identity { suit_index: 1, rank: 4 },
        Identity { suit_index: 2, rank: 2 },
    ]);

    assert_eq!(ids.len(), 3);
    assert!(ids.contains(Identity { suit_index: 0, rank: 1 }));
    assert!(ids.contains(Identity { suit_index: 1, rank: 4 }));
    assert!(ids.contains(Identity { suit_index: 2, rank: 2 }));
}

#[test]
fn it_retains() {
    let mut ids = IdentitySet::from_iter(every_id(5));
    let stacks = [3, 1, 4, 1, 5];
    ids.retain(|i| i.rank > stacks[i.suit_index]);

    assert_eq!(ids.len(), 11);
}

#[test]
fn it_filters() {
    let ids = IdentitySet::from_iter(every_id(5));
    let stacks = [3, 1, 4, 1, 5];
    let new_ids = ids.filter(|i| i.rank > stacks[i.suit_index]);

    assert_eq!(ids.len(), 25);
    assert_eq!(new_ids.len(), 11);
}

#[test]
fn set_operations_follow_the_sets() {
    let a = IdentitySet::from_iter(vec![Identity { suit_index: 0, rank: 1 }, Identity { suit_index: 1, rank: 2 }]);
    let b = IdentitySet::from_iter(vec![Identity { suit_index: 1, rank: 2 }, Identity { suit_index: 3, rank: 5 }]);

    let both = a.intersect(&b);
    assert_eq!(both.to_vec(), vec![Identity { suit_index: 1, rank: 2 }]);

    let either = a.union(&b);
    assert_eq!(either.len(), 3);
    assert!(either.contains(Identity { suit_index: 3, rank: 5 }));

    let only_a = a.difference(&b);
    assert_eq!(only_a.to_vec(), vec![Identity { suit_index: 0, rank: 1 }]);
}

#[test]
fn iterates_in_order() {
    let ids = IdentitySet::from_iter(vec![
        Identity { suit_index: 2, rank: 3 },
        Identity { suit_index: 0, rank: 5 },
        Identity { suit_index: 1, rank: 1 },
    ]);
    let mut it = ids.iter();
    assert_eq!(it.len(), 3);
    assert_eq!(it.next(), Some(Identity { suit_index: 0, rank: 5 }));
    assert_eq!(it.next(), Some(Identity { suit_index: 1, rank: 1 }));
    assert_eq!(it.next(), Some(Identity { suit_index: 2, rank: 3 }));
    assert_eq!(it.next(), None);
    assert_eq!(it.len(), 0);
}

#[test]
fn single_and_value() {
    let id = Identity { suit_index: 1, rank: 3 };
    let s = IdentitySet::single(id);
    assert_eq!(s.value(), 1 << 7);
    assert!(!s.is_empty());
    assert!(IdentitySet::empty().is_empty());
    assert_eq!(s.concat(&[Identity { suit_index: 0, rank: 1 }]).len(), 2);
}

#[test]
fn ord_round_trip() {
    let id = Identity { suit_index: 3, rank: 2 };
    assert_eq!(id.to_ord(), 16);
    assert_eq!(Identity::from_ord(16), id);
}

#[test]
fn to_vec_lists_the_set_in_order_and_round_trips() {
    let ids = vec![
        Identity { suit_index: 2, rank: 3 },
        Identity { suit_index: 0, rank: 1 },
        Identity { suit_index: 1, rank: 5 },
    ];
    let s = IdentitySet::from_iter(ids);
    let v = s.to_vec();
    assert_eq!(v.len(), s.len());
    assert_eq!(v, vec![
        Identity { suit_index: 0, rank: 1 },
        Identity { suit_index: 1, rank: 5 },
        Identity { suit_index: 2, rank: 3 },
    ]);
    assert!(v.iter().all(|&id| s.contains(id)));
    assert_eq!(IdentitySet::from_iter(v), s);
}
