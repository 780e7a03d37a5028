use match_board::bitmap::GridBitmap;
use match_board::position::Pos;

#[test]
fn new_bitmap_is_clear() {
    let bitmap = GridBitmap::new(3, 2);
    for x in 0..3 {
        for y in 0..2 {
            assert!(!bitmap.is_set(Pos::new(x, y)));
        }
    }
}

#[test]
fn set_and_unset_one_cell() {
    let mut bitmap = GridBitmap::new(3, 3);
    let p = Pos::new(1, 2);
    bitmap.set(p);
    assert!(bitmap.is_set(p));
    assert!(!bitmap.is_set(Pos::new(2, 1)));
    bitmap.unset(p);
    assert!(!bitmap.is_set(p));
}

#[test]
fn swap_exchanges_two_cells() {
    let mut bitmap = GridBitmap::new(2, 2);
    let a = Pos::new(0, 0);
    let b = Pos::new(1, 1);
    bitmap.set(a);
    bitmap.swap(a, b);
    assert!(!bitmap.is_set(a));
    assert!(bitmap.is_set(b));
    // a self-swap changes nothing
    bitmap.swap(b, b);
    assert!(bitmap.is_set(b));
}
