use decrypt::bitset::BitSet256;

#[test]
fn flip() {
    let mut bitset = BitSet256::default();
    assert_eq!([0, 0, 0, 0], bitset.bit);

    bitset.flip(0);
    assert_eq!([1, 0, 0, 0], bitset.bit);

    bitset.flip(255);
    assert_eq!([1, 0, 0, 0x8000_0000_0000_0000], bitset.bit);
}

#[test]
fn rot_left() {
    let mut bitset = BitSet256::default();

    bitset.flip(0);
    assert_eq!([1 << 63, 0, 0, 0], bitset.rot_left(63).bit);
    assert_eq!([0, 1, 0, 0], bitset.rot_left(64).bit);
    assert_eq!([0, 0, 0, 0x8000_0000_0000_0000], bitset.rot_left(255).bit);
}

#[test]
fn rot_right() {
    let mut bitset = BitSet256::default();

    bitset.flip(0);
    assert_eq!([0, 0, 0, 1 << 63], bitset.rot_right(1).bit);
    assert_eq!([0, 0, 0, 1], bitset.rot_right(64).bit);
    assert_eq!([0, 0, 1 << 63, 0], bitset.rot_right(65).bit);
    assert_eq!([2, 0, 0, 0], bitset.rot_right(255).bit);
}

#[test]
fn overflow() {
    println!(
        "{:064b}",
        0b1010101010101010101010101010101010101010101010101010101010101010_u64 << 32
    );
    println!(
        "{:064b}",
        0b1010101010101010101010101010101010101010101010101010101010101010_u64 >> 32
    );
}

#[test]
fn rot_round_trip() {
    let mut b = BitSet256::default();
    b.flip(3);
    b.flip(77);
    b.flip(200);
    for k in 0..256 {
        let r = b.rot_left(k).rot_right(k);
        assert_eq!(b.bit, r.bit);
        let r = b.rot_right(k).rot_left(k);
        assert_eq!(b.bit, r.bit);
    }
}

#[test]
fn union_and_intersection() {
    let mut a = BitSet256::default();
    let mut b = BitSet256::default();
    a.set(5);
    a.set(100);
    b.set(100);
    b.set(255);
    let i = a.and(&b);
    assert!(i.get(100));
    assert!(!i.get(5));
    assert!(!i.get(255));
    a.union_assign(&b);
    assert!(a.get(5) && a.get(100) && a.get(255));
    assert!(!a.is_zero());
    assert!(BitSet256::default().is_zero());
}
