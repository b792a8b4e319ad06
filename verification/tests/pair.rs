use rumpsteak::pair::Pair;

#[test]
fn iter_mut_gives_each_side_to_change() {
    let mut pair = Pair::new(1, 2);
    let (left, right) = pair.iter_mut();
    *left += 10;
    *right *= 5;
    assert_eq!(pair, Pair::new(11, 10));
}
