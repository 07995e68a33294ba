use falling_sand::datatype::{GridMap, Vector2};

#[test]
fn grid_round_trip() {
    let mut g: GridMap<u32> = GridMap::new(4, 3, 0);
    g.set(2, 1, 7);
    assert_eq!(*g.get(2, 1), 7);
    for x in 0..4 {
        for y in 0..3 {
            if (x, y) != (2, 1) {
                assert_eq!(*g.get(x, y), 0);
            }
        }
    }
}

#[test]
fn grid_dims() {
    let g: GridMap<u8> = GridMap::new(6, 2, 1);
    assert_eq!(g.width(), 6);
    assert_eq!(g.height(), 2);
}

#[test]
fn grid_swap() {
    let mut g: GridMap<u32> = GridMap::new(3, 3, 0);
    g.set(0, 0, 5);
    g.set(2, 2, 9);
    g.swap(0, 0, 2, 2);
    assert_eq!(*g.get(0, 0), 9);
    assert_eq!(*g.get(2, 2), 5);
    assert_eq!(*g.get(1, 1), 0);
}

#[test]
fn grid_set_neighbor_center() {
    let mut g: GridMap<u8> = GridMap::new(5, 5, 0);
    g.set_neighbor(2, 2, 9);
    for x in 0..5i32 {
        for y in 0..5i32 {
            let inside = (x - 2).abs() <= 1 && (y - 2).abs() <= 1;
            let expected = if inside { 9 } else { 0 };
            assert_eq!(*g.get(x as usize, y as usize), expected);
        }
    }
}

#[test]
fn grid_set_neighbor_corner_clamps() {
    let mut g: GridMap<u8> = GridMap::new(4, 4, 0);
    g.set_neighbor(0, 0, 3);
    for x in 0..4i32 {
        for y in 0..4i32 {
            let inside = x <= 1 && y <= 1;
            let expected = if inside { 3 } else { 0 };
            assert_eq!(*g.get(x as usize, y as usize), expected);
        }
    }
}

#[test]
fn grid_set_neighbor_outside_changes_nothing() {
    let mut g: GridMap<u8> = GridMap::new(4, 4, 0);
    g.set_neighbor(-3, -3, 7);
    g.set_neighbor(10, 1, 7);
    for x in 0..4 {
        for y in 0..4 {
            assert_eq!(*g.get(x, y), 0);
        }
    }
}

#[test]
fn vector_convert_widens() {
    let v: Vector2<u8> = Vector2 { x: 3, y: 250 };
    let w: Vector2<u32> = v.convert();
    assert_eq!(w, Vector2 { x: 3u32, y: 250u32 });
}

#[test]
fn vector_scale_in_place() {
    let mut v: Vector2<i64> = Vector2 { x: 2, y: -3 };
    v.scale(5);
    assert_eq!(v, Vector2 { x: 10, y: -15 });
    v.scale(2).scale(-1);
    assert_eq!(v, Vector2 { x: -20, y: 30 });
}
