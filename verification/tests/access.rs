use kynex::access::get2_mut;

#[test]
fn get2_mut_returns_elements_in_argument_order() {
    let mut v = vec![10, 20, 30, 40];
    let (a, b) = get2_mut(&mut v, 1, 3);
    assert_eq!(*a, 20);
    assert_eq!(*b, 40);
}

#[test]
fn get2_mut_with_first_index_larger() {
    let mut v = vec![10, 20, 30, 40];
    let (a, b) = get2_mut(&mut v, 3, 0);
    assert_eq!(*a, 40);
    assert_eq!(*b, 10);
}

#[test]
fn get2_mut_writes_reach_the_slice() {
    let mut v = vec![1, 2, 3, 4, 5];
    {
        let (a, b) = get2_mut(&mut v, 4, 1);
        *a += 100;
        *b += 200;
    }
    assert_eq!(v, vec![1, 202, 3, 4, 105]);
}

#[test]
fn get2_mut_leaves_other_elements_alone() {
    let mut v = vec![
        String::from("a"),
        String::from("b"),
        String::from("c"),
    ];
    {
        let (x, y) = get2_mut(&mut v, 0, 2);
        x.push('!');
        y.push('?');
    }
    assert_eq!(v, vec!["a!".to_string(), "b".to_string(), "c?".to_string()]);
}

#[test]
fn get2_mut_swaps_through_both_references() {
    let mut v = vec![7u8, 9u8];
    {
        let (a, b) = get2_mut(&mut v, 0, 1);
        std::mem::swap(a, b);
    }
    assert_eq!(v, vec![9u8, 7u8]);
}

#[test]
fn get2_mut_adjacent_indices_at_the_end() {
    let mut v = vec![0i64, 0, 0, 5, 6];
    {
        let (a, b) = get2_mut(&mut v[..], 4, 3);
        *a -= 6;
        *b -= 5;
    }
    assert_eq!(v, vec![0i64; 5]);
}
