use dungeon_gen::grid::Direction::{Down, DownLeft, DownRight, Left, Right, Up, UpLeft, UpRight};
use dungeon_gen::grid::Point;
use std::ops::Add;

#[test]
fn grid_test() {
    let x = [Down; 20]
        .into_iter()
        .fold(Point::from((0, 10)), Point::add);
    let y = [Right; 20]
        .into_iter()
        .fold(Point::from((100, 20)), Point::add);
    assert_eq!(x, Point::from((20, 10)));
    assert_eq!(y, Point::from((100, 40)));
    assert_eq!(x + y, Point::from((120, 50)));
    assert_eq!(y - x, Point::from((80, 30)));
    assert_eq!(x + Up, Point::from((19, 10)));
    assert_eq!(x - Up, Point::from((21, 10)));
    assert_eq!(x + Left, Point::from((20, 9)));
    assert_eq!(x - Left, Point::from((20, 11)));
    assert_eq!(x + UpLeft, Point::from((19, 9)));
    assert_eq!(x + UpRight, Point::from((19, 11)));
    assert_eq!(x + DownLeft, Point::from((21, 9)));
    assert_eq!(x + DownRight, Point::from((21, 11)));
}

const ALL: [dungeon_gen::grid::Direction; 8] =
    [Up, Down, Left, Right, UpLeft, UpRight, DownLeft, DownRight];

#[test]
fn negation_is_an_involution() {
    for d in ALL {
        assert_eq!(-(-d), d);
    }
    assert_eq!(-Up, Down);
    assert_eq!(-Left, Right);
    assert_eq!(-UpLeft, DownRight);
    assert_eq!(-UpRight, DownLeft);
}

#[test]
fn a_step_and_its_opposite_cancel() {
    let origin = Point::from((0, 0));
    for d in ALL {
        assert_eq!(d + (-d), origin);
        for p in [origin, Point::from((255, 255)), Point::from((0, 255)), Point::from((7, 200))] {
            assert_eq!(p + d + (-d), p);
            assert_eq!(p + d - d, p);
            assert_eq!(p - d, p + (-d));
        }
    }
}

#[test]
fn steps_wrap_around() {
    let origin = Point::from((0, 0));
    assert_eq!(origin + Up, Point::from((255, 0)));
    assert_eq!(origin + Left, Point::from((0, 255)));
    assert_eq!(origin + UpLeft, Point::from((255, 255)));
    assert_eq!(Point::from((255, 255)) + DownRight, origin);
    assert_eq!(Point::from((200, 100)) + Point::from((100, 200)), Point::from((44, 44)));
    assert_eq!(Point::from((1, 2)) - Point::from((2, 4)), Point::from((255, 254)));
    assert_eq!(Up + Left, Point::from((255, 255)));
    assert_eq!(Down + Down, Point::from((2, 0)));
    assert_eq!(Down + Right, DownRight + Up + Down);
    assert_eq!(Point::from((3, 4)).x(), 3);
    assert_eq!(Point::from((3, 4)).y(), 4);
}

#[test]
fn addition_is_commutative_and_associative() {
    let points = [
        Point::from((0, 0)),
        Point::from((1, 255)),
        Point::from((128, 128)),
        Point::from((255, 1)),
        Point::from((200, 77)),
    ];
    for a in points {
        for b in points {
            assert_eq!(a + b, b + a);
            assert_eq!(a + b - b, a);
            for c in points {
                assert_eq!((a + b) + c, a + (b + c));
            }
        }
    }
}
