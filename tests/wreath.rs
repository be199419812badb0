use rubikcube::{decode, rotate, Matrix, Mod3, Replacement, WreathElm};

fn labels(v: &[usize]) -> Vec<Mod3> {
    v.iter().map(|&n| Mod3::from(n)).collect()
}

fn element(cycle: Vec<usize>, v: &[usize]) -> WreathElm {
    WreathElm::new(Replacement::new(vec![cycle]), labels(v))
}

fn identity(n: usize) -> WreathElm {
    WreathElm::new(Replacement::e(), vec![Mod3::Zero; n])
}

fn moves() -> Vec<WreathElm> {
    vec![
        element(vec![1, 2, 3, 4], &[0, 0, 0, 0, 0, 0, 0, 0]),
        element(vec![5, 6, 7, 8], &[0, 0, 0, 0, 0, 0, 0, 0]),
        element(vec![2, 7, 6, 3], &[0, 2, 1, 0, 0, 2, 1, 0]),
        element(vec![1, 4, 5, 8], &[1, 0, 0, 2, 1, 0, 0, 2]),
        element(vec![1, 8, 7, 2], &[2, 1, 0, 0, 0, 0, 2, 1]),
        element(vec![3, 6, 5, 4], &[0, 0, 2, 1, 2, 1, 0, 0]),
    ]
}

fn same(a: &WreathElm, b: &WreathElm) -> bool {
    a.replacement() == b.replacement() && a.vector() == b.vector()
}

#[test]
fn identity_encodes_to_a_zero_diagonal() {
    let e = identity(8);
    let m = e.get_matrix();
    assert_eq!(m.len(), 8);
    for i in 0..8 {
        assert_eq!(m[i].len(), 8);
        for j in 0..8 {
            if i == j {
                assert_eq!(m[i][j], Some(Mod3::Zero));
            } else {
                assert_eq!(m[i][j], None);
            }
        }
    }
    let d = decode(&m).unwrap();
    assert!(same(&d, &e));
    assert_eq!(d.replacement().to_string(), "e");
}

#[test]
fn encoding_places_labels_by_reverse_lookup() {
    let u = element(vec![1, 2, 3, 4], &[1, 2, 0, 0, 0, 0, 0, 1]);
    let m = u.get_matrix();
    // point 1 is reached from 4, point 2 from 1
    assert_eq!(m[0][3], Some(Mod3::One));
    assert_eq!(m[1][0], Some(Mod3::Two));
    assert_eq!(m[2][1], Some(Mod3::Zero));
    assert_eq!(m[3][2], Some(Mod3::Zero));
    assert_eq!(m[7][7], Some(Mod3::One));
    assert_eq!(m[0][0], None);
    assert_eq!(m[0].iter().filter(|c| c.is_some()).count(), 1);
}

#[test]
fn decode_after_encode_gives_the_element() {
    for e in moves() {
        let d = decode(&e.get_matrix()).unwrap();
        assert!(same(&d, &e));
    }
    let two = WreathElm::new(
        Replacement::new(vec![vec![1, 6, 8, 7], vec![2, 4, 5]]),
        labels(&[0, 2, 0, 2, 1, 2, 0, 2]),
    );
    let d = decode(&two.get_matrix()).unwrap();
    assert!(same(&d, &two));
    assert_eq!(d.replacement().to_string(), "(1 6 8 7)(2 4 5)");
}

#[test]
fn composing_with_the_identity_changes_nothing() {
    let id = identity(8).get_matrix();
    for e in moves() {
        let m = e.get_matrix();
        let left = rotate(&id, &m).unwrap();
        let right = rotate(&m, &id).unwrap();
        assert_eq!(left, m);
        assert_eq!(right, m);
        assert!(same(&decode(&left).unwrap(), &e));
        assert!(same(&decode(&right).unwrap(), &e));
    }
}

#[test]
fn small_order_inverse_of_each_move() {
    for e in moves() {
        let inv = decode(&e.rev()).unwrap();
        let prod = rotate(&inv.get_matrix(), &e.get_matrix()).unwrap();
        let d = decode(&prod).unwrap();
        assert!(same(&d, &identity(8)));
        let prod2 = rotate(&e.get_matrix(), &inv.get_matrix()).unwrap();
        assert!(same(&decode(&prod2).unwrap(), &identity(8)));
    }
}

#[test]
fn composition_follows_rows_and_adds_labels() {
    let u = moves()[0].get_matrix();
    let r = moves()[3].get_matrix();
    let ur = rotate(&r, &u).unwrap();
    let d = decode(&ur).unwrap();
    // row i of u leads to column j, row j of r leads to column k
    for i in 0..8 {
        let j = u[i].iter().position(|c| c.is_some()).unwrap();
        let k = r[j].iter().position(|c| c.is_some()).unwrap();
        assert_eq!(ur[i][k], Some(u[i][j].unwrap() + r[j][k].unwrap()));
    }
    assert_eq!(d.replacement().replace(2), 3);
    assert_eq!(d.replacement().replace(1), 1);
}

#[test]
fn composition_of_two_moves() {
    let u = moves()[0].get_matrix();
    let r = moves()[3].get_matrix();
    let d = decode(&rotate(&r, &u).unwrap()).unwrap();
    assert_eq!(d.vector(), &labels(&[2, 1, 0, 0, 1, 0, 0, 2]));
    assert_eq!(d.replacement().to_string(), "(2 3 4 5 8)");
}

#[test]
fn composition_needs_a_present_cell_in_each_row() {
    let id = identity(3).get_matrix();
    let mut broken: Matrix = id.clone();
    broken[1][1] = None;
    assert_eq!(rotate(&id, &broken), None);
    assert_eq!(rotate(&broken, &id), None);
    assert!(rotate(&id, &id).is_some());
}

#[test]
fn decode_rejects_malformed_matrices() {
    let id = identity(3).get_matrix();
    let mut empty_row: Matrix = id.clone();
    empty_row[2][2] = None;
    assert!(decode(&empty_row).is_none());
    let mut doubled: Matrix = id.clone();
    doubled[0][1] = Some(Mod3::One);
    doubled[1][1] = None;
    assert!(decode(&doubled).is_none());
    let empty: Matrix = vec![];
    let d = decode(&empty).unwrap();
    assert!(d.vector().is_empty());
}

#[test]
fn element_text() {
    let l = element(vec![2, 7, 6, 3], &[0, 2, 1, 0, 0, 2, 1, 0]);
    assert_eq!(
        l.to_string(),
        "{Replacement: (2 7 6 3), Vector: [0, 2, 1, 0, 0, 2, 1, 0]}"
    );
    assert_eq!(identity(2).to_string(), "{Replacement: e, Vector: [0, 0]}");
    assert_eq!(identity(0).to_string(), "{Replacement: e, Vector: []}");
}
