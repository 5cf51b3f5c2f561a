//! The order in which cells are filled: nearer the origin first, and among
//! cells equally far, lexicographically.

use vstd::prelude::*;
use vstd::relations::total_ordering;

verus! {

/// The distance of a cell from the origin: the sum of its coordinates.
pub open spec fn distance(cell: Seq<usize>) -> nat
    decreases cell.len(),
{
    if cell.len() == 0 {
        0
    } else {
        distance(cell.drop_last()) + cell.last() as nat
    }
}

/// Lexicographic order on coordinate tuples; a proper prefix comes first.
pub open spec fn lex_le(a: Seq<usize>, b: Seq<usize>) -> bool
    decreases a.len(),
{
    if a.len() == 0 {
        true
    } else if b.len() == 0 {
        false
    } else if a[0] != b[0] {
        a[0] < b[0]
    } else {
        lex_le(a.drop_first(), b.drop_first())
    }
}

/// Whether cell `a` is filled no later than cell `b`.
pub open spec fn fill_le(a: Seq<usize>, b: Seq<usize>) -> bool {
    distance(a) < distance(b) || (distance(a) == distance(b) && lex_le(a, b))
}

/// The fill order as a relation.
pub open spec fn fill_order() -> spec_fn(Seq<usize>, Seq<usize>) -> bool {
    |a: Seq<usize>, b: Seq<usize>| fill_le(a, b)
}

/// Every tuple comes no later than itself.
pub proof fn lemma_lex_reflexive(a: Seq<usize>)
    ensures
        lex_le(a, a),
    decreases a.len(),
{
    if a.len() > 0 {
        lemma_lex_reflexive(a.drop_first());
    }
}

/// Two tuples that come no later than each other are the same tuple.
pub proof fn lemma_lex_antisymmetric(a: Seq<usize>, b: Seq<usize>)
    requires
        lex_le(a, b),
        lex_le(b, a),
    ensures
        a == b,
    decreases a.len(),
{
    if a.len() > 0 {
        lemma_lex_antisymmetric(a.drop_first(), b.drop_first());
        assert(a =~= seq![a[0]] + a.drop_first());
    }
}

/// What comes no later than a tuple comes no later than what that tuple
/// comes no later than.
pub proof fn lemma_lex_transitive(a: Seq<usize>, b: Seq<usize>, c: Seq<usize>)
    requires
        lex_le(a, b),
        lex_le(b, c),
    ensures
        lex_le(a, c),
    decreases a.len(),
{
    if a.len() > 0 {
        if a[0] == b[0] && b[0] == c[0] {
            lemma_lex_transitive(a.drop_first(), b.drop_first(), c.drop_first());
        }
    }
}

/// Of two tuples one comes no later than the other.
pub proof fn lemma_lex_total(a: Seq<usize>, b: Seq<usize>)
    ensures
        lex_le(a, b) || lex_le(b, a),
    decreases a.len(),
{
    if a.len() > 0 && b.len() > 0 && a[0] == b[0] {
        lemma_lex_total(a.drop_first(), b.drop_first());
    }
}

/// The fill order is a total order on coordinate tuples: no two different
/// tuples share a place in it.
pub proof fn lemma_fill_order_total()
    ensures
        total_ordering(fill_order()),
{
    let leq = fill_order();
    assert forall|x: Seq<usize>| #[trigger] leq(x, x) by {
        lemma_lex_reflexive(x);
    }
    assert forall|x: Seq<usize>, y: Seq<usize>| #[trigger] leq(x, y) && #[trigger] leq(y, x) implies x
        == y by {
        lemma_lex_antisymmetric(x, y);
    }
    assert forall|x: Seq<usize>, y: Seq<usize>, z: Seq<usize>| #[trigger] leq(x, y) && #[trigger] leq(y, z) implies leq(
        x,
        z,
    ) by {
        if distance(x) == distance(y) && distance(y) == distance(z) {
            lemma_lex_transitive(x, y, z);
        }
    }
    assert forall|x: Seq<usize>, y: Seq<usize>| #[trigger] leq(x, y) || #[trigger] leq(y, x) by {
        lemma_lex_total(x, y);
    }
}

/// Changing one coordinate changes the distance by as much.
pub proof fn lemma_distance_update(cell: Seq<usize>, axis: int, value: usize)
    requires
        0 <= axis < cell.len(),
    ensures
        distance(cell.update(axis, value)) == distance(cell) - cell[axis] + value,
    decreases cell.len(),
{
    let changed = cell.update(axis, value);
    if axis == cell.len() - 1 {
        assert(changed.drop_last() =~= cell.drop_last());
    } else {
        lemma_distance_update(cell.drop_last(), axis, value);
        assert(changed.drop_last() =~= cell.drop_last().update(axis, value));
    }
}

/// The distance of a cell, in a type wide enough for any cell.
pub fn cell_distance(cell: &Vec<usize>) -> (sum: u128)
    ensures
        sum == distance(cell@),
{
    let mut sum: u128 = 0;
    let mut a: usize = 0;
    while a < cell.len()
        invariant
            a <= cell.len(),
            sum == distance(cell@.take(a as int)),
            sum <= a * 0xffff_ffff_ffff_ffff,
        decreases cell.len() - a,
    {
        proof {
            assert(cell@.take(a + 1).drop_last() =~= cell@.take(a as int));
        }
        sum = sum + cell[a] as u128;
        a += 1;
    }
    assert(cell@.take(a as int) =~= cell@);
    sum
}

/// Whether `a` comes no later than `b` lexicographically.
pub fn lex_precedes(a: &Vec<usize>, b: &Vec<usize>) -> (le: bool)
    ensures
        le == lex_le(a@, b@),
{
    let mut i: usize = 0;
    assert(a@.skip(0) =~= a@ && b@.skip(0) =~= b@);
    loop
        invariant
            i <= a.len(),
            i <= b.len(),
            lex_le(a@, b@) == lex_le(a@.skip(i as int), b@.skip(i as int)),
        decreases a.len() - i,
    {
        if i == a.len() {
            return true;
        }
        if i == b.len() {
            return false;
        }
        proof {
            assert(a@.skip(i as int).drop_first() =~= a@.skip(i + 1));
            assert(b@.skip(i as int).drop_first() =~= b@.skip(i + 1));
        }
        if a[i] != b[i] {
            return a[i] < b[i];
        }
        i += 1;
    }
}

/// Whether cell `a` is filled no later than cell `b`.
pub fn precedes(a: &Vec<usize>, b: &Vec<usize>) -> (le: bool)
    ensures
        le == fill_le(a@, b@),
{
    let da = cell_distance(a);
    let db = cell_distance(b);
    if da != db {
        da < db
    } else {
        lex_precedes(a, b)
    }
}

} // verus!
