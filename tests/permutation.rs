use rubikcube::Replacement;

fn four_cycle() -> Replacement {
    Replacement::new(vec![vec![1, 2, 3, 4]])
}

#[test]
fn four_cycle_images_and_text() {
    let p = four_cycle();
    assert_eq!(p.replace(1), 2);
    assert_eq!(p.replace(2), 3);
    assert_eq!(p.replace(3), 4);
    assert_eq!(p.replace(4), 1);
    assert_eq!(p.replace(5), 5);
    assert_eq!(p.get_k(), 4);
    assert_eq!(p.to_string(), "(1 2 3 4)");
}

#[test]
fn points_beyond_the_bound_are_fixed() {
    let p = Replacement::new(vec![vec![2, 7, 6, 3], vec![1, 4]]);
    assert_eq!(p.get_k(), 7);
    for i in 8..40 {
        assert_eq!(p.replace(i), i);
    }
    assert_eq!(Replacement::e().replace(1), 1);
    assert_eq!(Replacement::e().replace(100), 100);
}

#[test]
fn equality_ignores_explicit_fixed_points() {
    let p = four_cycle();
    let q = Replacement::new(vec![vec![1, 2, 3, 4], vec![5]]);
    assert_eq!(p.get_k(), 4);
    assert_eq!(q.get_k(), 5);
    assert!(p == q);
    assert!(q == p);
    assert!(p != Replacement::new(vec![vec![1, 2, 4, 3]]));
    assert!(Replacement::new(vec![vec![3], vec![6]]) == Replacement::e());
}

#[test]
fn identity_text_and_bound() {
    let e = Replacement::e();
    assert_eq!(e.get_k(), 0);
    assert_eq!(e.to_string(), "e");
    assert_eq!(Replacement::new(vec![]).get_k(), 0);
    assert!(Replacement::new(vec![]) == e);
}

#[test]
fn text_keeps_the_given_cycles() {
    let p = Replacement::new(vec![vec![1, 6, 8, 7], vec![2, 4, 5]]);
    assert_eq!(p.to_string(), "(1 6 8 7)(2 4 5)");
    let q = Replacement::new(vec![vec![10, 2]]);
    assert_eq!(q.to_string(), "(10 2)");
}

#[test]
fn largest_moved_point() {
    assert_eq!(four_cycle().get_correct_k(), Some(4));
    assert_eq!(Replacement::new(vec![vec![1, 2, 3, 4], vec![5]]).get_correct_k(), Some(4));
    assert_eq!(Replacement::new(vec![vec![2, 3], vec![9]]).get_correct_k(), Some(3));
    assert_eq!(Replacement::e().get_correct_k(), None);
    assert_eq!(Replacement::new(vec![vec![7]]).get_correct_k(), None);
}

#[test]
fn reverse_lookup() {
    let p = four_cycle();
    assert_eq!(p.rev_find(1), Some(4));
    assert_eq!(p.rev_find(2), Some(1));
    assert_eq!(p.rev_find(4), Some(3));
    assert_eq!(p.rev_find(5), None);
    let q = Replacement::new(vec![vec![1, 2], vec![4]]);
    assert_eq!(q.rev_find(4), Some(4));
    assert_eq!(q.rev_find(3), Some(3));
    assert_eq!(q.rev_find(5), None);
}

#[test]
fn concatenation_joins_the_cycles() {
    let p = four_cycle();
    let q = Replacement::new(vec![vec![5, 6, 7, 8]]);
    let r = p.concat_before(&q);
    assert_eq!(r.get_k(), 8);
    assert_eq!(r.replace(4), 1);
    assert_eq!(r.replace(8), 5);
    assert_eq!(r.replace(6), 7);
    assert_eq!(r.to_string(), "(1 2 3 4)(5 6 7 8)");
}

#[test]
fn image_table_lists_images() {
    let p = Replacement::new(vec![vec![2, 7, 6, 3]]);
    assert_eq!(p.image_table(), vec![1, 7, 2, 4, 5, 3, 6]);
    assert_eq!(Replacement::e().image_table(), Vec::<usize>::new());
}

#[test]
fn from_image_table_follows_orbits() {
    let r = Replacement::from_correspond_book(&vec![2, 3, 1, 4, 6, 5]);
    assert_eq!(r.to_string(), "(1 2 3)(5 6)");
    assert_eq!(r.replace(3), 1);
    assert_eq!(r.replace(6), 5);
    assert_eq!(r.replace(4), 4);
    let id = Replacement::from_correspond_book(&vec![1, 2, 3]);
    assert!(id == Replacement::e());
    assert_eq!(id.to_string(), "e");
}

#[test]
fn canonical_form_round_trip() {
    let p = Replacement::new(vec![vec![1, 6, 8, 7], vec![2, 4, 5], vec![9]]);
    let q = Replacement::from_correspond_book(&p.image_table());
    let r = q.rearrange();
    assert!(r == p);
    assert_eq!(r.to_string(), "(1 6 8 7)(2 4 5)");
    assert_eq!(r.get_k(), 8);
}

#[test]
fn rearrange_finds_cycles_from_the_smallest_point() {
    let p = Replacement::new(vec![vec![4, 3], vec![7, 5, 6], vec![8]]);
    let r = p.rearrange();
    assert!(r == p);
    assert_eq!(r.to_string(), "(3 4)(5 6 7)");
    assert_eq!(Replacement::new(vec![vec![2]]).rearrange().to_string(), "e");
}
