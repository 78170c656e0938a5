use sv_language_index::position::{PointCmp, Position, Range};
use sv_language_index::semantic::Item;

fn range(br: usize, bc: usize, er: usize, ec: usize) -> Range {
    Range {
        begin: Position { row: br, col: bc },
        end: Position { row: er, col: ec },
    }
}

// The three-way range-versus-point comparison: less when the range ends
// before the point, greater when it begins after, equal on containment,
// with column tie-breaks only on the first and last rows.
#[test]
fn compare_point_three_ways() {
    let r = range(2, 4, 4, 7);
    assert_eq!(r.compare_point(&Position { row: 5, col: 0 }), PointCmp::Less);
    assert_eq!(r.compare_point(&Position { row: 1, col: 9 }), PointCmp::Greater);
    assert_eq!(r.compare_point(&Position { row: 3, col: 0 }), PointCmp::Equal);
    assert_eq!(r.compare_point(&Position { row: 2, col: 3 }), PointCmp::Greater);
    assert_eq!(r.compare_point(&Position { row: 2, col: 4 }), PointCmp::Equal);
    assert_eq!(r.compare_point(&Position { row: 4, col: 7 }), PointCmp::Equal);
    assert_eq!(r.compare_point(&Position { row: 4, col: 8 }), PointCmp::Less);
}

#[test]
fn single_row_range_bounds() {
    let r = range(0, 12, 0, 17);
    assert_eq!(r.compare_point(&Position { row: 0, col: 11 }), PointCmp::Greater);
    assert_eq!(r.compare_point(&Position { row: 0, col: 12 }), PointCmp::Equal);
    assert_eq!(r.compare_point(&Position { row: 0, col: 17 }), PointCmp::Equal);
    assert_eq!(r.compare_point(&Position { row: 0, col: 18 }), PointCmp::Less);
}

// Every item variant reports the range it was discovered at.
#[test]
fn item_location_reports_range() {
    let r = range(1, 2, 1, 5);
    let m = Item::ModuleIdentifier { module_name: "m".to_string(), location: r };
    assert_eq!(*m.location(), r);
    let u = Item::UnknownIdentifier { name: "u".to_string(), location: r };
    assert_eq!(*u.location(), r);
}
