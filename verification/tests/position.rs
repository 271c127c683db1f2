use labirust::Pos;

#[test]
fn constructors() {
    assert_eq!(Pos::new(3, -4), Pos::new(3, -4));
    assert_eq!(Pos::zero(), Pos::new(0, 0));
    assert_eq!(Pos::one(), Pos::new(1, 1));
    assert_eq!(Pos::sized(5), Pos::new(5, 5));
}

#[test]
fn accessors() {
    let p = Pos::new(7, -2);
    assert_eq!(p.x(), 7);
    assert_eq!(p.y(), -2);
    assert_eq!(p.decompose(), (7, -2));
}

#[test]
fn arithmetic() {
    let a = Pos::new(2, 3);
    let b = Pos::new(-1, 4);
    assert_eq!(a.add(b), Pos::new(1, 7));
    assert_eq!(a.sub(b), Pos::new(3, -1));
    assert_eq!(a.mul(b), Pos::new(-2, 12));
    assert_eq!(a.scale(3), Pos::new(6, 9));
    assert_eq!(Pos::one().scale(-2), Pos::new(-2, -2));
}
