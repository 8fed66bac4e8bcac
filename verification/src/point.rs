//! The order of points.

use vstd::prelude::*;
use std::cmp::Ordering;
use crate::field::DozerPoint;

verus! {

/// Whether the point `a` comes before the point `b`: by the first
/// coordinate, and by the second among points with the same first one.
pub open spec fn point_before(a: DozerPoint, b: DozerPoint) -> bool {
    a.x < b.x || (a.x == b.x && a.y < b.y)
}

/// Holds a point against another: by the first coordinate, and by the
/// second among points with the same first one.
pub fn compare_points(a: &DozerPoint, b: &DozerPoint) -> (r: Ordering)
    ensures
        (r == Ordering::Equal) == (*a == *b),
        (r == Ordering::Less) == point_before(*a, *b),
        (r == Ordering::Greater) == point_before(*b, *a),
{
    if a.x == b.x && a.y == b.y {
        Ordering::Equal
    } else if a.x > b.x || (a.x == b.x && a.y > b.y) {
        Ordering::Greater
    } else {
        Ordering::Less
    }
}

/// The order of points is the order of their bytes.
pub proof fn lemma_point_order(a: DozerPoint, b: DozerPoint)
    ensures
        crate::bytes::lex_lt(
            crate::field::data_encoding(crate::field::FieldValue::Point(a)),
            crate::field::data_encoding(crate::field::FieldValue::Point(b)),
        ) <==> point_before(a, b),
{
    let ax = crate::bigendian::be(a.x as nat, 8);
    let ay = crate::bigendian::be(a.y as nat, 8);
    let bx = crate::bigendian::be(b.x as nat, 8);
    let by = crate::bigendian::be(b.y as nat, 8);
    crate::bigendian::lemma_pow256_8();
    crate::bigendian::lemma_be_len(a.x as nat, 8);
    crate::bigendian::lemma_be_len(a.y as nat, 8);
    crate::bigendian::lemma_be_len(b.x as nat, 8);
    crate::bigendian::lemma_be_len(b.y as nat, 8);
    crate::bigendian::lemma_be_order(a.x as nat, b.x as nat, 8);
    crate::bigendian::lemma_be_order(a.y as nat, b.y as nat, 8);
    crate::bytes::lemma_split(ax, bx);
    crate::bytes::lemma_split(ay, by);
    crate::bytes::lemma_split(ax + ay, bx + by);
    let p = crate::bytes::mismatch(ax, bx, 0);
    if ax == bx {
        crate::field::lemma_lex_common_head(ax, ay, by);
    } else {
        assert(p < 8) by {
            if p >= 8 {
                assert(ax =~= bx);
            }
        }
        assert(crate::bytes::is_split(ax + ay, bx + by, p));
    }
}

} // verus!
