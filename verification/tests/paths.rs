use ray_tracing::{pixel_at, place_of, Path, Traced, MAX_DEPTH};

#[test]
fn ray_that_misses_everything_ends_in_the_sky() {
    let path = Path::new();
    assert_eq!(path.depth, 0);
    assert_eq!(path.traced(false), Traced::Sky);
}

#[test]
fn ray_that_hits_asks_the_material() {
    assert_eq!(Path::new().traced(true), Traced::Scatter(Path { depth: 1 }));
    assert_eq!(Path { depth: 17 }.traced(true), Traced::Scatter(Path { depth: 18 }));
    assert_eq!(Path { depth: 49 }.traced(true), Traced::Scatter(Path { depth: 50 }));
}

#[test]
fn path_is_given_up_after_fifty_bounces() {
    assert_eq!(MAX_DEPTH, 50);
    let mut path = Path::new();
    let mut bounces = 0;
    loop {
        match path.traced(true) {
            Traced::Scatter(next) => {
                path = next;
                bounces += 1;
            }
            ended => {
                assert_eq!(ended, Traced::Black);
                break;
            }
        }
    }
    assert_eq!(bounces, 50);
    assert_eq!(path.depth, 50);
    assert_eq!(Path { depth: 51 }.traced(true), Traced::Black);
    assert_eq!(Path { depth: u32::MAX }.traced(true), Traced::Black);
}

#[test]
fn sky_is_reached_at_any_depth() {
    assert_eq!(Path { depth: 3 }.traced(false), Traced::Sky);
    assert_eq!(Path { depth: 50 }.traced(false), Traced::Sky);
    assert_eq!(Path { depth: 70 }.traced(false), Traced::Sky);
}

#[test]
fn pixels_come_row_by_row_from_the_top() {
    // 3 wide, 2 high
    assert_eq!(pixel_at(3, 2, 0), (0, 1));
    assert_eq!(pixel_at(3, 2, 1), (1, 1));
    assert_eq!(pixel_at(3, 2, 2), (2, 1));
    assert_eq!(pixel_at(3, 2, 3), (0, 0));
    assert_eq!(pixel_at(3, 2, 5), (2, 0));
    assert_eq!(pixel_at(200, 100, 0), (0, 99));
    assert_eq!(pixel_at(200, 100, 19_999), (199, 0));
    assert_eq!(pixel_at(1, 1, 0), (0, 0));
}

#[test]
fn place_of_undoes_pixel_at() {
    assert_eq!(place_of(3, 2, 0, 1), 0);
    assert_eq!(place_of(3, 2, 2, 0), 5);
    for k in 0..(7 * 5) {
        let (i, j) = pixel_at(7, 5, k);
        assert!(i < 7 && j < 5);
        assert_eq!(place_of(7, 5, i, j), k);
    }
}
