//! The mathematical model of the layout engine: nodes as rectangles over
//! character-sequence identifiers, the well-formedness of a grid state, the
//! semantics of a change batch, and the collision-resolution cascade.

use vstd::prelude::*;
use crate::error::GridErrorKind;
use crate::text::lex_lt;
use crate::text::lemma_lex_asymmetric;
use crate::text::lemma_lex_irreflexive;
use crate::text::lemma_lex_transitive;
use crate::text::lemma_lex_trichotomy;

verus! {

/// The model of one stored rectangle.
pub struct NodeModel {
    pub id: Seq<char>,
    pub x: int,
    pub y: int,
    pub w: int,
    pub h: int,
}

/// The model of a whole grid state: the fixed dimensions and the stored
/// rectangles, kept sorted by identifier.
pub struct GridModel {
    pub rows: int,
    pub cols: int,
    pub items: Seq<NodeModel>,
}

/// The model of one change record.
pub enum ChangeModel {
    Add { value: NodeModel },
    Remove { value: NodeModel },
    Move { old_value: NodeModel, new_value: NodeModel },
}

/// Whether a node's rectangle lies within a `rows` x `cols` grid and has
/// positive extent.
pub open spec fn node_in_bounds(n: NodeModel, rows: int, cols: int) -> bool {
    &&& 0 <= n.x
    &&& 0 <= n.y
    &&& 1 <= n.w
    &&& 1 <= n.h
    &&& n.x + n.w <= cols
    &&& n.y + n.h <= rows
}

/// Whether the rectangles of two nodes share a cell.
pub open spec fn rects_overlap(a: NodeModel, b: NodeModel) -> bool {
    &&& a.x < b.x + b.w
    &&& b.x < a.x + a.w
    &&& a.y < b.y + b.h
    &&& b.y < a.y + a.h
}

/// Whether node `n` covers the cell at column `x`, row `y`.
pub open spec fn covers(n: NodeModel, x: int, y: int) -> bool {
    &&& n.x <= x < n.x + n.w
    &&& n.y <= y < n.y + n.h
}

/// Whether a node overlaps the rectangle at `(x, y)` of width `w`, height `h`.
pub open spec fn overlaps_rect(n: NodeModel, x: int, y: int, w: int, h: int) -> bool {
    &&& n.x < x + w
    &&& x < n.x + n.w
    &&& n.y < y + h
    &&& y < n.y + n.h
}

/// The first position of the node with the given identifier, or the length of
/// the sequence if no node has it.
pub open spec fn find_id(s: Seq<NodeModel>, id: Seq<char>) -> int
    decreases s.len(),
{
    if s.len() == 0 {
        0
    } else if s[0].id == id {
        0
    } else {
        1 + find_id(s.skip(1), id)
    }
}

/// Whether some node in the sequence has the given identifier.
pub open spec fn has_id(s: Seq<NodeModel>, id: Seq<char>) -> bool {
    find_id(s, id) < s.len()
}

pub proof fn lemma_find_id(s: Seq<NodeModel>, id: Seq<char>)
    ensures
        0 <= find_id(s, id) <= s.len(),
        find_id(s, id) < s.len() ==> s[find_id(s, id)].id == id,
        forall|i: int| 0 <= i < find_id(s, id) ==> s[i].id != id,
        find_id(s, id) == s.len() ==> forall|i: int| 0 <= i < s.len() ==> s[i].id != id,
    decreases s.len(),
{
    if s.len() > 0 && s[0].id != id {
        lemma_find_id(s.skip(1), id);
        assert(forall|i: int| 1 <= i < s.len() ==> s[i] == s.skip(1)[i - 1]);
    }
}

/// The position at which a node with identifier `id` belongs in a sorted
/// sequence: the number of nodes whose identifier precedes it.
pub open spec fn insert_pos(s: Seq<NodeModel>, id: Seq<char>) -> int
    decreases s.len(),
{
    if s.len() == 0 {
        0
    } else if lex_lt(s[0].id, id) {
        1 + insert_pos(s.skip(1), id)
    } else {
        0
    }
}

/// The sequence with node `n` inserted at its sorted position (when its
/// identifier is absent) or written over the node that already carries its
/// identifier.
pub open spec fn put_node(s: Seq<NodeModel>, n: NodeModel) -> Seq<NodeModel> {
    if has_id(s, n.id) {
        s.update(find_id(s, n.id), n)
    } else {
        let k = insert_pos(s, n.id);
        s.take(k) + seq![n] + s.skip(k)
    }
}

/// The sequence with the node of the given identifier removed, if present.
pub open spec fn remove_id(s: Seq<NodeModel>, id: Seq<char>) -> Seq<NodeModel> {
    if has_id(s, id) {
        let k = find_id(s, id);
        s.take(k) + s.skip(k + 1)
    } else {
        s
    }
}

/// Whether the sequence is strictly sorted by identifier, which also makes
/// every identifier unique.
pub open spec fn sorted_by_id(s: Seq<NodeModel>) -> bool {
    forall|i: int, j: int| 0 <= i < j < s.len() ==> lex_lt(#[trigger] s[i].id, #[trigger] s[j].id)
}

/// Whether every node lies within a `rows` x `cols` grid.
pub open spec fn all_in_bounds(s: Seq<NodeModel>, rows: int, cols: int) -> bool {
    forall|i: int| 0 <= i < s.len() ==> node_in_bounds(#[trigger] s[i], rows, cols)
}

/// Whether no two nodes of the sequence overlap.
pub open spec fn pairwise_disjoint(s: Seq<NodeModel>) -> bool {
    forall|i: int, j: int|
        0 <= i < s.len() && 0 <= j < s.len() && i != j
            ==> !rects_overlap(#[trigger] s[i], #[trigger] s[j])
}

/// Whether a grid state is well formed: every node lies within the grid, the
/// nodes are sorted by identifier, and no two rectangles overlap.
pub open spec fn state_ok(m: GridModel) -> bool {
    &&& all_in_bounds(m.items, m.rows, m.cols)
    &&& sorted_by_id(m.items)
    &&& pairwise_disjoint(m.items)
}

pub proof fn lemma_insert_pos(s: Seq<NodeModel>, id: Seq<char>)
    requires
        sorted_by_id(s),
    ensures
        0 <= insert_pos(s, id) <= s.len(),
        forall|i: int| 0 <= i < insert_pos(s, id) ==> lex_lt(#[trigger] s[i].id, id),
        forall|i: int| insert_pos(s, id) <= i < s.len() ==> !lex_lt(#[trigger] s[i].id, id),
    decreases s.len(),
{
    if s.len() == 0 {
    } else if lex_lt(s[0].id, id) {
        assert(sorted_by_id(s.skip(1))) by {
            assert(forall|i: int, j: int| 0 <= i < j < s.skip(1).len()
                ==> s.skip(1)[i] == s[i + 1] && s.skip(1)[j] == s[j + 1]);
        }
        lemma_insert_pos(s.skip(1), id);
        assert(forall|i: int| 1 <= i < s.len() ==> s[i] == s.skip(1)[i - 1]);
    } else {
        // every later node is larger than s[0], so none precedes id
        assert forall|i: int| 0 <= i < s.len() implies !lex_lt(#[trigger] s[i].id, id) by {
            if i > 0 {
                if lex_lt(s[i].id, id) {
                    lemma_lex_trichotomy(s[0].id, id);
                    if s[0].id == id {
                        lemma_lex_asymmetric(s[i].id, id);
                        assert(lex_lt(s[0].id, s[i].id));
                    } else {
                        lemma_lex_transitive(id, s[0].id, s[i].id);
                        lemma_lex_asymmetric(s[i].id, id);
                    }
                }
            }
        }
    }
}

/// Writing a node into a sorted sequence keeps it sorted; the result holds
/// the node at one position and every other node unchanged, shifted by at
/// most one place.
pub proof fn lemma_put_node(s: Seq<NodeModel>, n: NodeModel)
    requires
        sorted_by_id(s),
    ensures
        sorted_by_id(put_node(s, n)),
        has_id(s, n.id) ==> {
            let k = find_id(s, n.id);
            &&& put_node(s, n).len() == s.len()
            &&& put_node(s, n)[k] == n
            &&& forall|i: int| 0 <= i < s.len() && i != k ==> put_node(s, n)[i] == s[i]
        },
        !has_id(s, n.id) ==> {
            let k = insert_pos(s, n.id);
            &&& 0 <= k <= s.len()
            &&& put_node(s, n).len() == s.len() + 1
            &&& put_node(s, n)[k] == n
            &&& forall|i: int| 0 <= i < k ==> put_node(s, n)[i] == s[i]
            &&& forall|i: int| k < i < s.len() + 1 ==> put_node(s, n)[i] == s[i - 1]
        },
{
    lemma_find_id(s, n.id);
    let r = put_node(s, n);
    if has_id(s, n.id) {
        let k = find_id(s, n.id);
        assert forall|i: int, j: int| 0 <= i < j < r.len()
            implies lex_lt(#[trigger] r[i].id, #[trigger] r[j].id) by {
            assert(r[i].id == s[i].id && r[j].id == s[j].id);
        }
    } else {
        let k = insert_pos(s, n.id);
        lemma_insert_pos(s, n.id);
        assert(r =~= s.take(k) + seq![n] + s.skip(k));
        assert(forall|i: int| 0 <= i < k ==> r[i] == s[i]);
        assert(forall|i: int| k < i < r.len() ==> r[i] == s[i - 1]);
        assert forall|i: int, j: int| 0 <= i < j < r.len()
            implies lex_lt(#[trigger] r[i].id, #[trigger] r[j].id) by {
            lemma_lex_trichotomy(n.id, r[j].id);
            lemma_lex_trichotomy(r[i].id, n.id);
            if i == k && j > k {
                assert(r[j] == s[j - 1]);
                assert(!lex_lt(s[j - 1].id, n.id));
                assert(s[j - 1].id != n.id);
            } else if j == k && i < k {
                assert(r[i] == s[i]);
            } else if i < k && j > k {
                assert(r[i] == s[i] && r[j] == s[j - 1]);
                if i == j - 1 {
                    assert(lex_lt(s[i].id, n.id) && !lex_lt(s[i].id, n.id));
                }
            }
        }
    }
}

/// Removing an identifier from a sorted sequence keeps it sorted and leaves
/// every other node unchanged, shifted by at most one place.
pub proof fn lemma_remove_id(s: Seq<NodeModel>, id: Seq<char>)
    requires
        sorted_by_id(s),
    ensures
        sorted_by_id(remove_id(s, id)),
        !has_id(remove_id(s, id), id),
        has_id(s, id) ==> {
            let k = find_id(s, id);
            &&& remove_id(s, id).len() == s.len() - 1
            &&& forall|i: int| 0 <= i < k ==> remove_id(s, id)[i] == s[i]
            &&& forall|i: int| k <= i < s.len() - 1 ==> remove_id(s, id)[i] == s[i + 1]
        },
        !has_id(s, id) ==> remove_id(s, id) == s,
{
    lemma_find_id(s, id);
    let r = remove_id(s, id);
    if has_id(s, id) {
        let k = find_id(s, id);
        assert(r =~= s.take(k) + s.skip(k + 1));
        assert(forall|i: int| 0 <= i < k ==> r[i] == s[i]);
        assert(forall|i: int| k <= i < r.len() ==> r[i] == s[i + 1]);
        assert forall|i: int, j: int| 0 <= i < j < r.len()
            implies lex_lt(#[trigger] r[i].id, #[trigger] r[j].id) by {
            if j < k {
                assert(r[i] == s[i] && r[j] == s[j]);
            } else if i < k {
                assert(r[i] == s[i] && r[j] == s[j + 1]);
            } else {
                assert(r[i] == s[i + 1] && r[j] == s[j + 1]);
            }
        }
        assert forall|i: int| 0 <= i < r.len() implies #[trigger] r[i].id != id by {
            lemma_lex_irreflexive(id);
            if i < k {
                if s[i].id == id {
                    assert(lex_lt(s[i].id, s[k].id));
                }
            } else {
                if s[i + 1].id == id {
                    assert(lex_lt(s[k].id, s[i + 1].id));
                }
            }
        }
        assert(!has_id(r, id)) by {
            lemma_find_id(r, id);
            if find_id(r, id) < r.len() {
                assert(r[find_id(r, id)].id == id);
            }
        }
    }
}

/// The items after one change: `Add` and `Move` write the node that the change
/// carries, `Remove` drops the identifier.
pub open spec fn items_after_change(s: Seq<NodeModel>, c: ChangeModel) -> Seq<NodeModel> {
    match c {
        ChangeModel::Add { value } => put_node(s, value),
        ChangeModel::Remove { value } => remove_id(s, value.id),
        ChangeModel::Move { old_value, new_value } => put_node(s, new_value),
    }
}

/// The items after a whole batch, applied in order.
pub open spec fn items_after(s: Seq<NodeModel>, cs: Seq<ChangeModel>) -> Seq<NodeModel>
    decreases cs.len(),
{
    if cs.len() == 0 {
        s
    } else {
        items_after(items_after_change(s, cs[0]), cs.skip(1))
    }
}

pub proof fn lemma_items_after_push(s: Seq<NodeModel>, cs: Seq<ChangeModel>, c: ChangeModel)
    ensures
        items_after(s, cs.push(c)) == items_after_change(items_after(s, cs), c),
    decreases cs.len(),
{
    if cs.len() == 0 {
        assert(cs.push(c)[0] == c);
        assert(cs.push(c).skip(1) =~= Seq::<ChangeModel>::empty());
        assert(items_after(s, cs.push(c))
            == items_after(items_after_change(s, c), cs.push(c).skip(1)));
        assert(items_after(items_after_change(s, c), cs.push(c).skip(1))
            == items_after_change(s, c));
    } else {
        assert(cs.push(c)[0] == cs[0]);
        assert(cs.push(c).skip(1) =~= cs.skip(1).push(c));
        lemma_items_after_push(items_after_change(s, cs[0]), cs.skip(1), c);
    }
}

pub proof fn lemma_items_after_concat(s: Seq<NodeModel>, a: Seq<ChangeModel>, b: Seq<ChangeModel>)
    ensures
        items_after(s, a + b) == items_after(items_after(s, a), b),
    decreases a.len(),
{
    if a.len() == 0 {
        assert(a + b =~= b);
    } else {
        assert((a + b)[0] == a[0]);
        assert((a + b).skip(1) =~= a.skip(1) + b);
        lemma_items_after_concat(items_after_change(s, a[0]), a.skip(1), b);
    }
}


/// The identifier of the first node covering the cell at column `x`, row `y`,
/// if any. When no two nodes overlap, the covering node is unique.
pub open spec fn cell_owner(s: Seq<NodeModel>, x: int, y: int) -> Option<Seq<char>>
    decreases s.len(),
{
    if s.len() == 0 {
        None
    } else if covers(s[0], x, y) {
        Some(s[0].id)
    } else {
        cell_owner(s.skip(1), x, y)
    }
}

pub proof fn lemma_cell_owner(s: Seq<NodeModel>, x: int, y: int)
    ensures
        cell_owner(s, x, y) is Some ==> exists|i: int|
            0 <= i < s.len() && covers(#[trigger] s[i], x, y)
                && s[i].id == cell_owner(s, x, y)->Some_0,
        cell_owner(s, x, y) is None ==> forall|i: int|
            0 <= i < s.len() ==> !covers(#[trigger] s[i], x, y),
    decreases s.len(),
{
    if s.len() > 0 && !covers(s[0], x, y) {
        lemma_cell_owner(s.skip(1), x, y);
        assert(forall|i: int| 1 <= i < s.len() ==> s[i] == s.skip(1)[i - 1]);
        if cell_owner(s, x, y) is Some {
            let i = choose|i: int| 0 <= i < s.skip(1).len() && covers(#[trigger] s.skip(1)[i], x, y)
                && s.skip(1)[i].id == cell_owner(s.skip(1), x, y)->Some_0;
            assert(covers(s[i + 1], x, y) && s[i + 1].id == cell_owner(s, x, y)->Some_0);
        }
    }
}

/// If some node covers the cell, the cell has an owner with that node's
/// identifier, provided no two nodes overlap.
pub proof fn lemma_cell_owner_covers(s: Seq<NodeModel>, x: int, y: int, i: int)
    requires
        0 <= i < s.len(),
        covers(s[i], x, y),
        forall|p: int, q: int|
            0 <= p < s.len() && 0 <= q < s.len() && p != q
                ==> !rects_overlap(#[trigger] s[p], #[trigger] s[q]),
    ensures
        cell_owner(s, x, y) == Some(s[i].id),
    decreases s.len(),
{
    if i == 0 {
    } else if covers(s[0], x, y) {
        assert(rects_overlap(s[0], s[i]));
    } else {
        assert(forall|p: int| 1 <= p < s.len() ==> s[p] == s.skip(1)[p - 1]);
        lemma_cell_owner_covers(s.skip(1), x, y, i - 1);
    }
}

/// The collision scan over the rectangle at `(x, y)` of width `w`, height
/// `h`: cells are visited column by column, each covering identifier other
/// than `excl` is recorded once, in first-seen order, starting from cell
/// `(xi, yi)` with the identifiers `acc` already recorded.
pub open spec fn colliders_from(
    s: Seq<NodeModel>,
    excl: Seq<char>,
    x: int,
    y: int,
    w: int,
    h: int,
    xi: int,
    yi: int,
    acc: Seq<Seq<char>>,
) -> Seq<Seq<char>>
    decreases x + w - xi, y + h - yi,
        when x <= xi <= x + w && y <= yi <= y + h
{
    if xi >= x + w {
        acc
    } else if yi >= y + h {
        colliders_from(s, excl, x, y, w, h, xi + 1, y, acc)
    } else {
        let acc2 = match cell_owner(s, xi, yi) {
            Some(id) => if id != excl && !acc.contains(id) {
                acc.push(id)
            } else {
                acc
            },
            None => acc,
        };
        colliders_from(s, excl, x, y, w, h, xi, yi + 1, acc2)
    }
}

/// The identifiers of the nodes other than `excl` whose cells meet the given
/// rectangle, in first-seen column-major order, without repetition.
pub open spec fn colliders(
    s: Seq<NodeModel>,
    excl: Seq<char>,
    x: int,
    y: int,
    w: int,
    h: int,
) -> Seq<Seq<char>> {
    colliders_from(s, excl, x, y, w, h, x, y, Seq::empty())
}

/// Everything recorded stays recorded, and the owner of every cell at or
/// after the scan position is recorded by the end of the scan.
pub proof fn lemma_colliders_from(
    s: Seq<NodeModel>,
    excl: Seq<char>,
    x: int,
    y: int,
    w: int,
    h: int,
    xi: int,
    yi: int,
    acc: Seq<Seq<char>>,
)
    requires
        x <= xi <= x + w,
        y <= yi <= y + h,
    ensures
        forall|q: int| 0 <= q < acc.len()
            ==> colliders_from(s, excl, x, y, w, h, xi, yi, acc).contains(#[trigger] acc[q]),
        forall|cx: int, cy: int|
            {
                &&& x <= cx < x + w
                &&& y <= cy < y + h
                &&& (cx > xi || (cx == xi && cy >= yi))
                &&& cell_owner(s, cx, cy) is Some
                &&& cell_owner(s, cx, cy)->Some_0 != excl
            } ==> colliders_from(s, excl, x, y, w, h, xi, yi, acc).contains(
                cell_owner(s, cx, cy)->Some_0),
    decreases x + w - xi, y + h - yi,
{
    let r = colliders_from(s, excl, x, y, w, h, xi, yi, acc);
    if xi >= x + w {
    } else if yi >= y + h {
        lemma_colliders_from(s, excl, x, y, w, h, xi + 1, y, acc);
        assert forall|cx: int, cy: int|
            {
                &&& x <= cx < x + w
                &&& y <= cy < y + h
                &&& (cx > xi || (cx == xi && cy >= yi))
                &&& cell_owner(s, cx, cy) is Some
                &&& cell_owner(s, cx, cy)->Some_0 != excl
            } implies r.contains(cell_owner(s, cx, cy)->Some_0) by {
            assert(cx > xi || cy >= y + h);
            assert(cx >= xi + 1);
        }
    } else {
        let acc2 = match cell_owner(s, xi, yi) {
            Some(id) => if id != excl && !acc.contains(id) {
                acc.push(id)
            } else {
                acc
            },
            None => acc,
        };
        lemma_colliders_from(s, excl, x, y, w, h, xi, yi + 1, acc2);
        assert forall|q: int| 0 <= q < acc.len() implies r.contains(#[trigger] acc[q]) by {
            assert(acc2[q] == acc[q]);
            assert(r.contains(acc2[q]));
        }
        assert forall|cx: int, cy: int|
            {
                &&& x <= cx < x + w
                &&& y <= cy < y + h
                &&& (cx > xi || (cx == xi && cy >= yi))
                &&& cell_owner(s, cx, cy) is Some
                &&& cell_owner(s, cx, cy)->Some_0 != excl
            } implies r.contains(cell_owner(s, cx, cy)->Some_0) by {
            if cx == xi && cy == yi {
                let id = cell_owner(s, xi, yi)->Some_0;
                if acc.contains(id) {
                    let q = choose|q: int| 0 <= q < acc.len() && acc[q] == id;
                    assert(acc2.contains(acc[q])) by {
                        if acc2 != acc {
                            assert(acc2[q] == acc[q]);
                        }
                    }
                    let q2 = choose|q2: int| 0 <= q2 < acc2.len() && acc2[q2] == id;
                    assert(r.contains(acc2[q2]));
                } else {
                    assert(acc2 == acc.push(id));
                    assert(acc2[acc.len() as int] == id);
                    assert(r.contains(acc2[acc.len() as int]));
                }
            }
        }
    }
}


/// The displaced form of a node: same identifier, column and size, pushed to
/// row `ny`.
pub open spec fn displaced(c: NodeModel, ny: int) -> NodeModel {
    NodeModel { id: c.id, x: c.x, y: ny, w: c.w, h: c.h }
}

/// The collision-resolution cascade for the rectangle at `(x, y)` of width
/// `w`, height `h`, placed on behalf of the node with identifier `excl`:
/// every other node whose cells meet the rectangle is pushed to the row just
/// below it, recursively clearing each landing spot first. The result is the
/// ordered move list (innermost displacements first) and the items after the
/// moves, or `None` when a displacement would leave the grid.
pub open spec fn cascade_place(
    s: Seq<NodeModel>,
    rows: int,
    excl: Seq<char>,
    x: int,
    y: int,
    w: int,
    h: int,
) -> Option<(Seq<ChangeModel>, Seq<NodeModel>)>
    decreases rows - y, 1int, 0int,
        when 0 <= y && y + h <= rows && 1 <= h && 1 <= w
{
    cascade_ids(s, rows, excl, x, y, w, h, colliders(s, excl, x, y, w, h), 0)
}

/// One pass over the collider identifiers gathered for the rectangle: each
/// identifier still in the way is displaced in turn.
pub open spec fn cascade_ids(
    s: Seq<NodeModel>,
    rows: int,
    excl: Seq<char>,
    x: int,
    y: int,
    w: int,
    h: int,
    ids: Seq<Seq<char>>,
    j: int,
) -> Option<(Seq<ChangeModel>, Seq<NodeModel>)>
    decreases rows - y, 0int, ids.len() - j,
        when 0 <= y && y + h <= rows && 1 <= h && 1 <= w && 0 <= j
{
    if j >= ids.len() {
        Some((Seq::empty(), s))
    } else {
        let k = find_id(s, ids[j]);
        if k >= s.len() {
            cascade_ids(s, rows, excl, x, y, w, h, ids, j + 1)
        } else {
            let c = s[k];
            if !overlaps_rect(c, x, y, w, h) {
                cascade_ids(s, rows, excl, x, y, w, h, ids, j + 1)
            } else if !(1 <= c.h && 1 <= c.w) || y + h + c.h > rows {
                None
            } else {
                match cascade_place(s, rows, c.id, c.x, y + h, c.w, c.h) {
                    None => None,
                    Some((mvs, s2)) => {
                        let k2 = find_id(s2, c.id);
                        if k2 >= s2.len() {
                            None
                        } else {
                            let c2 = displaced(s2[k2], y + h);
                            let mv = ChangeModel::Move { old_value: s2[k2], new_value: c2 };
                            let s3 = s2.update(k2, c2);
                            match cascade_ids(s3, rows, excl, x, y, w, h, ids, j + 1) {
                                None => None,
                                Some((mvs2, s4)) => Some((mvs + seq![mv] + mvs2, s4)),
                            }
                        }
                    },
                }
            }
        }
    }
}


/// Whether `t` keeps every node of `s` with its identifier, column and size,
/// letting each node only move downward.
pub open spec fn same_skeleton(s: Seq<NodeModel>, t: Seq<NodeModel>) -> bool {
    &&& t.len() == s.len()
    &&& forall|i: int| 0 <= i < s.len() ==> {
        &&& (#[trigger] t[i]).id == s[i].id
        &&& t[i].x == s[i].x
        &&& t[i].w == s[i].w
        &&& t[i].h == s[i].h
        &&& t[i].y >= s[i].y
    }
}

/// Whether no node other than `excl` meets the given rectangle.
pub open spec fn clear_of_rect(
    t: Seq<NodeModel>,
    excl: Seq<char>,
    x: int,
    y: int,
    w: int,
    h: int,
) -> bool {
    forall|i: int|
        0 <= i < t.len() && (#[trigger] t[i]).id != excl ==> !overlaps_rect(t[i], x, y, w, h)
}

/// Whether every change of the batch is a displacement move.
pub open spec fn all_moves(cs: Seq<ChangeModel>) -> bool {
    forall|i: int| 0 <= i < cs.len() ==> (#[trigger] cs[i]) is Move
}

proof fn lemma_skip_contains(ids: Seq<Seq<char>>, j: int, v: Seq<char>)
    requires
        0 <= j < ids.len(),
        ids.skip(j).contains(v),
        v != ids[j],
    ensures
        ids.skip(j + 1).contains(v),
{
    let q = choose|q: int| 0 <= q < ids.skip(j).len() && ids.skip(j)[q] == v;
    assert(ids.skip(j)[q] == ids[j + q]);
    assert(q >= 1);
    assert(ids.skip(j + 1)[q - 1] == ids[j + q]);
}

/// If a node's identifier occurs in a sorted sequence, it occurs exactly at
/// its found position.
pub proof fn lemma_id_unique(s: Seq<NodeModel>, i: int)
    requires
        sorted_by_id(s),
        0 <= i < s.len(),
    ensures
        find_id(s, s[i].id) == i,
{
    lemma_find_id(s, s[i].id);
    let k = find_id(s, s[i].id);
    lemma_lex_irreflexive(s[i].id);
    if k < i {
        assert(lex_lt(s[k].id, s[i].id));
    }
    assert(k <= i);
    assert(k < s.len());
}

/// The correctness of the cascade: when it answers, the result keeps every
/// node's identifier, column and size, moves nodes only downward and only to
/// rows at or below the freed rectangle, keeps the state well formed, frees
/// the rectangle of every node but the placed one, and is exactly what
/// replaying the returned moves produces.
pub proof fn lemma_cascade_place(
    s: Seq<NodeModel>,
    rows: int,
    cols: int,
    excl: Seq<char>,
    x: int,
    y: int,
    w: int,
    h: int,
)
    requires
        all_in_bounds(s, rows, cols),
        sorted_by_id(s),
        pairwise_disjoint(s),
        0 <= y,
        y + h <= rows,
        1 <= h,
        1 <= w,
    ensures
        match cascade_place(s, rows, excl, x, y, w, h) {
            None => true,
            Some(r) => {
                let (mvs, t) = r;
                &&& same_skeleton(s, t)
                &&& all_in_bounds(t, rows, cols)
                &&& sorted_by_id(t)
                &&& pairwise_disjoint(t)
                &&& clear_of_rect(t, excl, x, y, w, h)
                &&& forall|i: int| 0 <= i < s.len() && (#[trigger] t[i]).y != s[i].y
                    ==> t[i].y >= y + h
                &&& items_after(s, mvs) == t
                &&& all_moves(mvs)
                &&& forall|q: int| 0 <= q < mvs.len()
                    ==> exists|i: int|
                        0 <= i < s.len() && s[i].id == change_target_id(#[trigger] mvs[q])
            },
        },
    decreases rows - y, 1int, 0int,
{
    let ids = colliders(s, excl, x, y, w, h);
    assert forall|i: int|
        0 <= i < s.len() && (#[trigger] s[i]).id != excl && overlaps_rect(s[i], x, y, w, h)
        implies ids.skip(0).contains(s[i].id) by {
        let cx = if s[i].x >= x { s[i].x } else { x };
        let cy = if s[i].y >= y { s[i].y } else { y };
        assert(covers(s[i], cx, cy));
        lemma_cell_owner_covers(s, cx, cy, i);
        lemma_colliders_from(s, excl, x, y, w, h, x, y, Seq::empty());
        assert(ids.contains(s[i].id));
        assert(ids.skip(0) =~= ids);
    }
    lemma_cascade_ids(s, rows, cols, excl, x, y, w, h, ids, 0);
}

/// The correctness of one pass over the gathered collider identifiers, under
/// the invariant that every node still meeting the rectangle is named among
/// the identifiers not yet processed.
pub proof fn lemma_cascade_ids(
    s: Seq<NodeModel>,
    rows: int,
    cols: int,
    excl: Seq<char>,
    x: int,
    y: int,
    w: int,
    h: int,
    ids: Seq<Seq<char>>,
    j: int,
)
    requires
        all_in_bounds(s, rows, cols),
        sorted_by_id(s),
        pairwise_disjoint(s),
        0 <= y,
        y + h <= rows,
        1 <= h,
        1 <= w,
        0 <= j <= ids.len(),
        forall|i: int|
            0 <= i < s.len() && (#[trigger] s[i]).id != excl && overlaps_rect(s[i], x, y, w, h)
                ==> ids.skip(j).contains(s[i].id),
    ensures
        match cascade_ids(s, rows, excl, x, y, w, h, ids, j) {
            None => true,
            Some(r) => {
                let (mvs, t) = r;
                &&& same_skeleton(s, t)
                &&& all_in_bounds(t, rows, cols)
                &&& sorted_by_id(t)
                &&& pairwise_disjoint(t)
                &&& clear_of_rect(t, excl, x, y, w, h)
                &&& forall|i: int| 0 <= i < s.len() && (#[trigger] t[i]).y != s[i].y
                    ==> t[i].y >= y + h
                &&& items_after(s, mvs) == t
                &&& all_moves(mvs)
                &&& forall|q: int| 0 <= q < mvs.len()
                    ==> exists|i: int|
                        0 <= i < s.len() && s[i].id == change_target_id(#[trigger] mvs[q])
            },
        },
    decreases rows - y, 0int, ids.len() - j,
{
    if j >= ids.len() {
        assert forall|i: int|
            0 <= i < s.len() && (#[trigger] s[i]).id != excl
            implies !overlaps_rect(s[i], x, y, w, h) by {
            if overlaps_rect(s[i], x, y, w, h) {
                assert(ids.skip(j).contains(s[i].id));
                assert(ids.skip(j).len() == 0);
            }
        }
        assert(items_after(s, Seq::empty()) == s);
    } else {
        let k = find_id(s, ids[j]);
        lemma_find_id(s, ids[j]);
        if k >= s.len() {
            assert forall|i: int|
                0 <= i < s.len() && (#[trigger] s[i]).id != excl
                    && overlaps_rect(s[i], x, y, w, h)
                implies ids.skip(j + 1).contains(s[i].id) by {
                lemma_skip_contains(ids, j, s[i].id);
            }
            lemma_cascade_ids(s, rows, cols, excl, x, y, w, h, ids, j + 1);
        } else {
            let c = s[k];
            if !overlaps_rect(c, x, y, w, h) {
                assert forall|i: int|
                    0 <= i < s.len() && (#[trigger] s[i]).id != excl
                        && overlaps_rect(s[i], x, y, w, h)
                    implies ids.skip(j + 1).contains(s[i].id) by {
                    if s[i].id == ids[j] {
                        lemma_id_unique(s, i);
                        assert(i == k);
                    } else {
                        lemma_skip_contains(ids, j, s[i].id);
                    }
                }
                lemma_cascade_ids(s, rows, cols, excl, x, y, w, h, ids, j + 1);
            } else if !(1 <= c.h && 1 <= c.w) || y + h + c.h > rows {
            } else {
                let ny = y + h;
                lemma_cascade_place(s, rows, cols, c.id, c.x, ny, c.w, c.h);
                match cascade_place(s, rows, c.id, c.x, ny, c.w, c.h) {
                    None => {},
                    Some((mvs, s2)) => {
                        let k2 = find_id(s2, c.id);
                        assert(s2[k].id == c.id);
                        assert(has_id(s2, c.id)) by {
                            lemma_find_id(s2, c.id);
                            if find_id(s2, c.id) >= s2.len() {
                                assert(s2[k].id != c.id);
                            }
                        }
                        lemma_id_unique(s2, k);
                        assert(k2 == k);
                        let c2 = displaced(s2[k2], ny);
                        let mv = ChangeModel::Move { old_value: s2[k2], new_value: c2 };
                        let s3 = s2.update(k2, c2);
                        // the displaced node itself
                        assert(c2.y == ny && c2.x == c.x && c2.w == c.w && c2.h == c.h
                            && c2.id == c.id);
                        assert(same_skeleton(s, s3)) by {
                            assert(c.y < ny);
                        }
                        assert(all_in_bounds(s3, rows, cols));
                        assert(sorted_by_id(s3)) by {
                            assert forall|p: int, q: int| 0 <= p < q < s3.len()
                                implies lex_lt(#[trigger] s3[p].id, #[trigger] s3[q].id) by {
                                assert(s3[p].id == s2[p].id && s3[q].id == s2[q].id);
                            }
                        }
                        assert(pairwise_disjoint(s3)) by {
                            assert forall|p: int, q: int|
                                0 <= p < s3.len() && 0 <= q < s3.len() && p != q
                                implies !rects_overlap(#[trigger] s3[p], #[trigger] s3[q]) by {
                                if p == k2 {
                                    assert(s3[q] == s2[q]);
                                    assert(s2[q].id != c.id) by {
                                        if s2[q].id == c.id {
                                            lemma_id_unique(s2, q);
                                        }
                                    }
                                    assert(!overlaps_rect(s2[q], c.x, ny, c.w, c.h));
                                } else if q == k2 {
                                    assert(s3[p] == s2[p]);
                                    assert(s2[p].id != c.id) by {
                                        if s2[p].id == c.id {
                                            lemma_id_unique(s2, p);
                                        }
                                    }
                                    assert(!overlaps_rect(s2[p], c.x, ny, c.w, c.h));
                                } else {
                                    assert(s3[p] == s2[p] && s3[q] == s2[q]);
                                }
                            }
                        }
                        // every node still meeting the outer rectangle is in the rest
                        assert forall|i: int|
                            0 <= i < s3.len() && (#[trigger] s3[i]).id != excl
                                && overlaps_rect(s3[i], x, y, w, h)
                            implies ids.skip(j + 1).contains(s3[i].id) by {
                            if i == k2 {
                                assert(s3[i].y == ny);
                                assert(!overlaps_rect(s3[i], x, y, w, h));
                            } else if s3[i].y != s[i].y {
                                assert(s3[i] == s2[i]);
                                assert(s2[i].y >= ny + c.h || s2[i].y == s[i].y);
                                assert(s3[i].y >= ny);
                                assert(!overlaps_rect(s3[i], x, y, w, h));
                            } else {
                                assert(s3[i] == s2[i]);
                                assert(s3[i].x == s[i].x && s3[i].w == s[i].w
                                    && s3[i].h == s[i].h);
                                assert(s3[i] == s[i]);
                                assert(overlaps_rect(s[i], x, y, w, h));
                                assert(ids.skip(j).contains(s[i].id));
                                if s[i].id == ids[j] {
                                    lemma_id_unique(s, i);
                                    assert(i == k);
                                    assert(false);
                                }
                                lemma_skip_contains(ids, j, s[i].id);
                            }
                        }
                        lemma_cascade_ids(s3, rows, cols, excl, x, y, w, h, ids, j + 1);
                        match cascade_ids(s3, rows, excl, x, y, w, h, ids, j + 1) {
                            None => {},
                            Some((mvs2, s4)) => {
                                assert(same_skeleton(s, s4));
                                assert forall|i: int|
                                    0 <= i < s.len() && (#[trigger] s4[i]).y != s[i].y
                                    implies s4[i].y >= y + h by {
                                    if s4[i].y != s3[i].y {
                                        assert(s4[i].y >= y + h);
                                    } else if i == k2 {
                                        assert(s3[i].y == ny);
                                    } else {
                                        assert(s2[i].y != s[i].y);
                                        assert(s2[i].y >= ny + c.h);
                                    }
                                }
                                assert(items_after(s, mvs + seq![mv] + mvs2) == s4) by {
                                    lemma_items_after_concat(s, mvs + seq![mv], mvs2);
                                    lemma_items_after_concat(s, mvs, seq![mv]);
                                    assert(items_after(s, mvs) == s2);
                                    assert(items_after(s2, seq![mv])
                                        == items_after_change(s2, mv)) by {
                                        assert(seq![mv][0] == mv);
                                        assert(seq![mv].skip(1) =~= Seq::<ChangeModel>::empty());
                                        assert(items_after(items_after_change(s2, mv),
                                            seq![mv].skip(1)) == items_after_change(s2, mv));
                                    }
                                    assert(items_after_change(s2, mv) == put_node(s2, c2));
                                    assert(put_node(s2, c2) == s3) by {
                                        assert(has_id(s2, c2.id));
                                        assert(find_id(s2, c2.id) == k2);
                                    }
                                    assert(items_after(s3, mvs2) == s4);
                                }
                                assert forall|q: int| 0 <= q < (mvs + seq![mv] + mvs2).len()
                                    implies exists|i: int|
                                        0 <= i < s.len() && s[i].id == change_target_id(
                                            #[trigger] (mvs + seq![mv] + mvs2)[q]) by {
                                    if q < mvs.len() {
                                        assert((mvs + seq![mv] + mvs2)[q] == mvs[q]);
                                        let i = choose|i: int|
                                            0 <= i < s.len() && s[i].id == change_target_id(
                                                mvs[q]);
                                        assert(s[i].id == change_target_id(
                                            (mvs + seq![mv] + mvs2)[q]));
                                    } else if q == mvs.len() {
                                        assert((mvs + seq![mv] + mvs2)[q] == mv);
                                        assert(change_target_id(mv) == c2.id);
                                        assert(s[k as int].id == c2.id);
                                    } else {
                                        assert((mvs + seq![mv] + mvs2)[q]
                                            == mvs2[q - mvs.len() - 1]);
                                        let i = choose|i: int|
                                            0 <= i < s3.len() && s3[i].id == change_target_id(
                                                mvs2[q - mvs.len() - 1]);
                                        assert(s3[i].id == s[i].id);
                                    }
                                }
                                assert(all_moves(mvs + seq![mv] + mvs2)) by {
                                    assert forall|i: int|
                                        0 <= i < (mvs + seq![mv] + mvs2).len()
                                        implies (#[trigger] (mvs + seq![mv] + mvs2)[i]) is Move by {
                                        if i < mvs.len() {
                                            assert((mvs + seq![mv] + mvs2)[i] == mvs[i]);
                                        } else if i == mvs.len() {
                                            assert((mvs + seq![mv] + mvs2)[i] == mv);
                                        } else {
                                            assert((mvs + seq![mv] + mvs2)[i]
                                                == mvs2[i - mvs.len() - 1]);
                                        }
                                    }
                                }
                            },
                        }
                    },
                }
            }
        }
    }
}


/// The model of a change batch with its bracketing hashes.
pub struct BatchModel {
    pub changes: Seq<ChangeModel>,
    pub hash_before: Seq<char>,
    pub hash_after: Seq<char>,
}

/// The model of an event payload.
pub enum EventModel {
    BatchChange(BatchModel),
}


/// Displacing a node into a freed rectangle keeps the state well formed.
pub proof fn lemma_displace_step(s2: Seq<NodeModel>, rows: int, cols: int, k2: int, ny: int)
    requires
        all_in_bounds(s2, rows, cols),
        sorted_by_id(s2),
        pairwise_disjoint(s2),
        0 <= k2 < s2.len(),
        clear_of_rect(s2, s2[k2].id, s2[k2].x, ny, s2[k2].w, s2[k2].h),
        0 <= ny,
        ny + s2[k2].h <= rows,
    ensures
        all_in_bounds(s2.update(k2, displaced(s2[k2], ny)), rows, cols),
        sorted_by_id(s2.update(k2, displaced(s2[k2], ny))),
        pairwise_disjoint(s2.update(k2, displaced(s2[k2], ny))),
{
    let c2 = displaced(s2[k2], ny);
    let s3 = s2.update(k2, c2);
    assert(sorted_by_id(s3)) by {
        assert forall|p: int, q: int| 0 <= p < q < s3.len()
            implies lex_lt(#[trigger] s3[p].id, #[trigger] s3[q].id) by {
            assert(s3[p].id == s2[p].id && s3[q].id == s2[q].id);
        }
    }
    assert(pairwise_disjoint(s3)) by {
        assert forall|p: int, q: int|
            0 <= p < s3.len() && 0 <= q < s3.len() && p != q
            implies !rects_overlap(#[trigger] s3[p], #[trigger] s3[q]) by {
            if p == k2 {
                assert(s3[q] == s2[q]);
                assert(s2[q].id != s2[k2].id) by {
                    if s2[q].id == s2[k2].id {
                        lemma_id_unique(s2, q);
                        lemma_id_unique(s2, k2);
                    }
                }
                assert(!overlaps_rect(s2[q], s2[k2].x, ny, s2[k2].w, s2[k2].h));
            } else if q == k2 {
                assert(s3[p] == s2[p]);
                assert(s2[p].id != s2[k2].id) by {
                    if s2[p].id == s2[k2].id {
                        lemma_id_unique(s2, p);
                        lemma_id_unique(s2, k2);
                    }
                }
                assert(!overlaps_rect(s2[p], s2[k2].x, ny, s2[k2].w, s2[k2].h));
            } else {
                assert(s3[p] == s2[p] && s3[q] == s2[q]);
            }
        }
    }
}


/// What a change writes or removes: the identifier it targets.
pub open spec fn change_target_id(c: ChangeModel) -> Seq<char> {
    match c {
        ChangeModel::Add { value } => value.id,
        ChangeModel::Remove { value } => value.id,
        ChangeModel::Move { old_value, new_value } => new_value.id,
    }
}

/// Membership in the result of writing a node: the node itself, plus every
/// node of the input that carries another identifier.
pub proof fn lemma_put_contains(s: Seq<NodeModel>, n: NodeModel)
    requires
        sorted_by_id(s),
    ensures
        forall|x: NodeModel|
            #![trigger put_node(s, n).contains(x)]
            put_node(s, n).contains(x) <==> (x == n || (s.contains(x) && x.id != n.id)),
{
    lemma_put_node(s, n);
    lemma_find_id(s, n.id);
    let r = put_node(s, n);
    assert forall|x: NodeModel| r.contains(x)
        implies (x == n || (s.contains(x) && x.id != n.id)) by {
        let i = choose|i: int| 0 <= i < r.len() && r[i] == x;
        if has_id(s, n.id) {
            let k = find_id(s, n.id);
            if i != k {
                assert(s[i] == x);
                if x.id == n.id {
                    lemma_id_unique(s, i);
                }
            }
        } else {
            let k = insert_pos(s, n.id);
            if i < k {
                assert(s[i] == x);
                lemma_insert_pos(s, n.id);
                lemma_lex_irreflexive(n.id);
                assert(x.id != n.id);
            } else if i > k {
                assert(s[i - 1] == x);
                lemma_insert_pos(s, n.id);
                lemma_lex_trichotomy(x.id, n.id);
                lemma_lex_irreflexive(n.id);
                assert(x.id != n.id);
            }
        }
    }
    assert forall|x: NodeModel| (x == n || (s.contains(x) && x.id != n.id))
        implies r.contains(x) by {
        if x == n {
            if has_id(s, n.id) {
                assert(r[find_id(s, n.id)] == x);
            } else {
                assert(r[insert_pos(s, n.id)] == x);
            }
        } else {
            let j = choose|j: int| 0 <= j < s.len() && s[j] == x;
            if has_id(s, n.id) {
                let k = find_id(s, n.id);
                assert(j != k);
                assert(r[j] == x);
            } else {
                let k = insert_pos(s, n.id);
                if j < k {
                    assert(r[j] == x);
                } else {
                    assert(r[j + 1] == x);
                }
            }
        }
    }
}

/// Two sorted sequences with the same members are the same sequence.
pub proof fn lemma_sorted_same_elements(a: Seq<NodeModel>, b: Seq<NodeModel>)
    requires
        sorted_by_id(a),
        sorted_by_id(b),
        forall|x: NodeModel| a.contains(x) <==> b.contains(x),
    ensures
        a == b,
    decreases a.len(),
{
    if a.len() == 0 {
        if b.len() > 0 {
            assert(b.contains(b[0]));
        }
        assert(a =~= b);
    } else {
        assert(a.contains(a[0]));
        assert(b.contains(a[0]));
        if b.len() == 0 {
            assert(false);
        }
        let j = choose|j: int| 0 <= j < b.len() && b[j] == a[0];
        assert(b.contains(b[0]));
        assert(a.contains(b[0]));
        let i = choose|i: int| 0 <= i < a.len() && a[i] == b[0];
        if j > 0 && i > 0 {
            assert(lex_lt(b[0].id, b[j].id));
            assert(lex_lt(a[0].id, a[i].id));
            lemma_lex_asymmetric(b[0].id, a[0].id);
        }
        assert(a[0] == b[0]);
        let at = a.skip(1);
        let bt = b.skip(1);
        assert(forall|p: int| 0 <= p < at.len() ==> at[p] == a[p + 1]);
        assert(forall|p: int| 0 <= p < bt.len() ==> bt[p] == b[p + 1]);
        assert(sorted_by_id(at));
        assert(sorted_by_id(bt));
        assert forall|x: NodeModel| at.contains(x) implies bt.contains(x) by {
            let p = choose|p: int| 0 <= p < at.len() && at[p] == x;
            assert(a[p + 1] == x);
            assert(a.contains(x));
            assert(b.contains(x));
            let q = choose|q: int| 0 <= q < b.len() && b[q] == x;
            if q == 0 {
                assert(x == a[0]);
                assert(lex_lt(a[0].id, a[p + 1].id));
                lemma_lex_irreflexive(a[0].id);
            }
            assert(bt[q - 1] == x);
        }
        assert forall|x: NodeModel| bt.contains(x) implies at.contains(x) by {
            let p = choose|p: int| 0 <= p < bt.len() && bt[p] == x;
            assert(b[p + 1] == x);
            assert(b.contains(x));
            assert(a.contains(x));
            let q = choose|q: int| 0 <= q < a.len() && a[q] == x;
            if q == 0 {
                assert(x == b[0]);
                assert(lex_lt(b[0].id, b[p + 1].id));
                lemma_lex_irreflexive(b[0].id);
            }
            assert(at[q - 1] == x);
        }
        lemma_sorted_same_elements(at, bt);
        assert forall|p: int| 0 <= p < a.len() implies a[p] == b[p] by {
            if p > 0 {
                assert(a[p] == at[p - 1]);
                assert(b[p] == bt[p - 1]);
            }
        }
        assert(a =~= b);
    }
}

/// Writing two nodes with different identifiers commutes.
pub proof fn lemma_put_put_commute(s: Seq<NodeModel>, a: NodeModel, b: NodeModel)
    requires
        sorted_by_id(s),
        a.id != b.id,
    ensures
        put_node(put_node(s, a), b) == put_node(put_node(s, b), a),
{
    lemma_put_node(s, a);
    lemma_put_node(s, b);
    lemma_put_node(put_node(s, a), b);
    lemma_put_node(put_node(s, b), a);
    lemma_put_contains(s, a);
    lemma_put_contains(s, b);
    lemma_put_contains(put_node(s, a), b);
    lemma_put_contains(put_node(s, b), a);
    assert forall|x: NodeModel|
        put_node(put_node(s, a), b).contains(x) <==> put_node(put_node(s, b), a).contains(x) by {
        assert(put_node(put_node(s, a), b).contains(x)
            <==> (x == b || (put_node(s, a).contains(x) && x.id != b.id)));
        assert(put_node(s, a).contains(x) <==> (x == a || (s.contains(x) && x.id != a.id)));
        assert(put_node(put_node(s, b), a).contains(x)
            <==> (x == a || (put_node(s, b).contains(x) && x.id != a.id)));
        assert(put_node(s, b).contains(x) <==> (x == b || (s.contains(x) && x.id != b.id)));
    }
    lemma_sorted_same_elements(put_node(put_node(s, a), b), put_node(put_node(s, b), a));
}

/// Writing a node twice under one identifier keeps only the second write.
pub proof fn lemma_put_put_same_id(s: Seq<NodeModel>, a: NodeModel, b: NodeModel)
    requires
        sorted_by_id(s),
        a.id == b.id,
    ensures
        put_node(put_node(s, a), b) == put_node(s, b),
{
    lemma_put_node(s, a);
    lemma_put_node(s, b);
    lemma_put_node(put_node(s, a), b);
    lemma_put_contains(s, a);
    lemma_put_contains(s, b);
    lemma_put_contains(put_node(s, a), b);
    assert forall|x: NodeModel|
        put_node(put_node(s, a), b).contains(x) <==> put_node(s, b).contains(x) by {
        assert(put_node(put_node(s, a), b).contains(x)
            <==> (x == b || (put_node(s, a).contains(x) && x.id != b.id)));
        assert(put_node(s, a).contains(x) <==> (x == a || (s.contains(x) && x.id != a.id)));
        assert(put_node(s, b).contains(x) <==> (x == b || (s.contains(x) && x.id != b.id)));
    }
    lemma_sorted_same_elements(put_node(put_node(s, a), b), put_node(s, b));
}

/// Removing a node and writing it back restores the sequence.
pub proof fn lemma_remove_put_roundtrip(s: Seq<NodeModel>, k: int)
    requires
        sorted_by_id(s),
        0 <= k < s.len(),
    ensures
        put_node(remove_id(s, s[k].id), s[k]) == s,
{
    lemma_id_unique(s, k);
    lemma_remove_id(s, s[k].id);
    let w = remove_id(s, s[k].id);
    lemma_put_node(w, s[k]);
    lemma_put_contains(w, s[k]);
    assert forall|x: NodeModel| put_node(w, s[k]).contains(x) implies s.contains(x) by {
        assert(put_node(w, s[k]).contains(x)
            <==> (x == s[k] || (w.contains(x) && x.id != s[k].id)));
        if x != s[k] {
            assert(w.contains(x) && x.id != s[k].id);
            let p = choose|p: int| 0 <= p < w.len() && w[p] == x;
            if p < k {
                assert(s[p] == x);
            } else {
                assert(s[p + 1] == x);
            }
        }
    }
    assert forall|x: NodeModel| s.contains(x) implies put_node(w, s[k]).contains(x) by {
        assert(put_node(w, s[k]).contains(x)
            <==> (x == s[k] || (w.contains(x) && x.id != s[k].id)));
        let p = choose|p: int| 0 <= p < s.len() && s[p] == x;
        if p != k {
            if x.id == s[k].id {
                lemma_id_unique(s, p);
            }
            if p < k {
                assert(w[p] == x);
            } else {
                assert(w[p - 1] == x);
            }
            assert(w.contains(x));
        }
    }
    lemma_sorted_same_elements(put_node(w, s[k]), s);
}

/// Applying a batch keeps the sequence sorted.
pub proof fn lemma_items_after_sorted(s: Seq<NodeModel>, cs: Seq<ChangeModel>)
    requires
        sorted_by_id(s),
    ensures
        sorted_by_id(items_after(s, cs)),
    decreases cs.len(),
{
    if cs.len() > 0 {
        match cs[0] {
            ChangeModel::Add { value } => {
                lemma_put_node(s, value);
            },
            ChangeModel::Remove { value } => {
                lemma_remove_id(s, value.id);
            },
            ChangeModel::Move { old_value, new_value } => {
                lemma_put_node(s, new_value);
            },
        }
        lemma_items_after_sorted(items_after_change(s, cs[0]), cs.skip(1));
    }
}

/// A batch of moves that never touches a given identifier commutes with
/// writing that identifier's node.
pub proof fn lemma_moves_commute(s: Seq<NodeModel>, n: NodeModel, mvs: Seq<ChangeModel>)
    requires
        sorted_by_id(s),
        all_moves(mvs),
        forall|i: int| 0 <= i < mvs.len() ==> change_target_id(#[trigger] mvs[i]) != n.id,
    ensures
        items_after(put_node(s, n), mvs) == put_node(items_after(s, mvs), n),
    decreases mvs.len(),
{
    lemma_put_node(s, n);
    if mvs.len() == 0 {
    } else {
        let c = mvs[0];
        assert(c is Move);
        let cv = c->Move_new_value;
        assert(cv.id != n.id);
        lemma_put_put_commute(s, n, cv);
        lemma_put_node(s, cv);
        assert(items_after_change(put_node(s, n), c) == put_node(put_node(s, n), cv));
        assert(put_node(put_node(s, n), cv) == put_node(put_node(s, cv), n));
        lemma_moves_commute(put_node(s, cv), n, mvs.skip(1));
        assert(forall|i: int| 0 <= i < mvs.skip(1).len() ==> mvs.skip(1)[i] == mvs[i + 1]);
    }
}


/// What `add_item` does to a state: reject a duplicate identifier or a
/// rectangle that leaves the grid, otherwise displace whatever is in the way
/// and store the new node, emitting the displacement moves first and the add
/// last.
pub open spec fn spec_add(m: GridModel, id: Seq<char>, x: int, y: int, w: int, h: int) -> Result<
    (Seq<NodeModel>, Seq<ChangeModel>),
    GridErrorKind,
> {
    if has_id(m.items, id) {
        Err(GridErrorKind::DuplicateId)
    } else if !(0 <= x && 0 <= y && 1 <= w && 1 <= h && x + w <= m.cols && y + h <= m.rows) {
        Err(GridErrorKind::OutOfBounds)
    } else {
        match cascade_place(m.items, m.rows, id, x, y, w, h) {
            None => Err(GridErrorKind::OutOfBounds),
            Some(r) => {
                let node = NodeModel { id, x, y, w, h };
                Ok((put_node(r.1, node), r.0.push(ChangeModel::Add { value: node })))
            },
        }
    }
}

/// What `move_item` does to a state: reject an unknown identifier or a
/// target that leaves the grid, otherwise displace whatever is in the way of
/// the target rectangle — consulting an image from which the mover's own
/// cells are absent — and reposition the node, emitting the displacement
/// moves first and the node's own move last.
pub open spec fn spec_move(m: GridModel, id: Seq<char>, nx: int, ny: int) -> Result<
    (Seq<NodeModel>, Seq<ChangeModel>),
    GridErrorKind,
> {
    if !has_id(m.items, id) {
        Err(GridErrorKind::NotFound)
    } else {
        let n = m.items[find_id(m.items, id)];
        if !(0 <= nx && 0 <= ny && nx + n.w <= m.cols && ny + n.h <= m.rows) {
            Err(GridErrorKind::OutOfBounds)
        } else {
            let without = remove_id(m.items, id);
            match cascade_place(without, m.rows, id, nx, ny, n.w, n.h) {
                None => Err(GridErrorKind::OutOfBounds),
                Some(r) => {
                    let moved = NodeModel { id, x: nx, y: ny, w: n.w, h: n.h };
                    Ok(
                        (
                            put_node(r.1, moved),
                            r.0.push(ChangeModel::Move { old_value: n, new_value: moved }),
                        ),
                    )
                },
            }
        }
    }
}

/// What `remove_item` does to a state: reject an unknown identifier,
/// otherwise drop the node and emit one removal change carrying it.
pub open spec fn spec_remove(m: GridModel, id: Seq<char>) -> Result<
    (Seq<NodeModel>, Seq<ChangeModel>),
    GridErrorKind,
> {
    if !has_id(m.items, id) {
        Err(GridErrorKind::NotFound)
    } else {
        Ok(
            (
                remove_id(m.items, id),
                seq![ChangeModel::Remove { value: m.items[find_id(m.items, id)] }],
            ),
        )
    }
}

/// Replay equivalence for an add: the state it yields is well formed and is
/// exactly what replaying the emitted batch over the prior state produces.
pub proof fn lemma_add_ok(m: GridModel, id: Seq<char>, x: int, y: int, w: int, h: int)
    requires
        state_ok(m),
        spec_add(m, id, x, y, w, h) is Ok,
    ensures
        ({
            let (t2, batch) = spec_add(m, id, x, y, w, h)->Ok_0;
            &&& state_ok(GridModel { rows: m.rows, cols: m.cols, items: t2 })
            &&& items_after(m.items, batch) == t2
        }),
{
    lemma_find_id(m.items, id);
    let node = NodeModel { id, x, y, w, h };
    lemma_cascade_place(m.items, m.rows, m.cols, id, x, y, w, h);
    let (mvs, t) = cascade_place(m.items, m.rows, id, x, y, w, h)->Some_0;
    let t2 = put_node(t, node);
    lemma_put_node(t, node);
    assert(!has_id(t, id)) by {
        lemma_find_id(t, id);
        if find_id(t, id) < t.len() {
            let i = find_id(t, id);
            assert(t[i].id == m.items[i].id);
        }
    }
    let kk = insert_pos(t, id);
    lemma_insert_pos(t, id);
    lemma_find_id(t, id);
    assert(forall|i: int| 0 <= i < t.len() ==> (#[trigger] t[i]).id != id);
    assert(state_ok(GridModel { rows: m.rows, cols: m.cols, items: t2 })) by {
        assert forall|p: int, q: int|
            0 <= p < t2.len() && 0 <= q < t2.len() && p != q
            implies !rects_overlap(#[trigger] t2[p], #[trigger] t2[q]) by {
            if p == kk {
                let qq = if q < kk { q } else { q - 1 };
                assert(t2[q] == t[qq]);
                assert(t[qq].id != id);
                assert(!overlaps_rect(t[qq], x, y, w, h));
            } else if q == kk {
                let pp = if p < kk { p } else { p - 1 };
                assert(t2[p] == t[pp]);
                assert(t[pp].id != id);
                assert(!overlaps_rect(t[pp], x, y, w, h));
            } else {
                let pp = if p < kk { p } else { p - 1 };
                let qq = if q < kk { q } else { q - 1 };
                assert(t2[p] == t[pp] && t2[q] == t[qq]);
            }
        }
        assert forall|p: int| 0 <= p < t2.len()
            implies node_in_bounds(#[trigger] t2[p], m.rows, m.cols) by {
            if p != kk {
                let pp = if p < kk { p } else { p - 1 };
                assert(t2[p] == t[pp]);
            }
        }
    }
    lemma_items_after_push(m.items, mvs, ChangeModel::Add { value: node });
}

/// Replay equivalence for a removal.
pub proof fn lemma_remove_ok(m: GridModel, id: Seq<char>)
    requires
        state_ok(m),
        spec_remove(m, id) is Ok,
    ensures
        ({
            let (t2, batch) = spec_remove(m, id)->Ok_0;
            &&& state_ok(GridModel { rows: m.rows, cols: m.cols, items: t2 })
            &&& items_after(m.items, batch) == t2
        }),
{
    lemma_find_id(m.items, id);
    lemma_remove_id(m.items, id);
    let n = m.items[find_id(m.items, id)];
    let t2 = remove_id(m.items, id);
    let k = find_id(m.items, id);
    assert(state_ok(GridModel { rows: m.rows, cols: m.cols, items: t2 })) by {
        assert forall|p: int, q: int|
            0 <= p < t2.len() && 0 <= q < t2.len() && p != q
            implies !rects_overlap(#[trigger] t2[p], #[trigger] t2[q]) by {
            let pp = if p < k { p } else { p + 1 };
            let qq = if q < k { q } else { q + 1 };
            assert(t2[p] == m.items[pp] && t2[q] == m.items[qq]);
        }
        assert forall|p: int| 0 <= p < t2.len()
            implies node_in_bounds(#[trigger] t2[p], m.rows, m.cols) by {
            let pp = if p < k { p } else { p + 1 };
            assert(t2[p] == m.items[pp]);
        }
    }
    let batch = seq![ChangeModel::Remove { value: n }];
    assert(items_after(m.items, batch) == t2) by {
        assert(batch[0] == ChangeModel::Remove { value: n });
        assert(batch.skip(1) =~= Seq::<ChangeModel>::empty());
        assert(items_after(items_after_change(m.items, batch[0]), batch.skip(1))
            == items_after_change(m.items, batch[0]));
    }
}

/// Replay equivalence for a move.
pub proof fn lemma_move_ok(m: GridModel, id: Seq<char>, nx: int, ny: int)
    requires
        state_ok(m),
        spec_move(m, id, nx, ny) is Ok,
    ensures
        ({
            let (t2, batch) = spec_move(m, id, nx, ny)->Ok_0;
            &&& state_ok(GridModel { rows: m.rows, cols: m.cols, items: t2 })
            &&& items_after(m.items, batch) == t2
        }),
{
    lemma_find_id(m.items, id);
    let k = find_id(m.items, id);
    let n = m.items[k];
    let moved = NodeModel { id, x: nx, y: ny, w: n.w, h: n.h };
    let without = remove_id(m.items, id);
    lemma_remove_id(m.items, id);
    assert(state_ok(GridModel { rows: m.rows, cols: m.cols, items: without })) by {
        assert forall|p: int, q: int|
            0 <= p < without.len() && 0 <= q < without.len() && p != q
            implies !rects_overlap(#[trigger] without[p], #[trigger] without[q]) by {
            let pp = if p < k { p } else { p + 1 };
            let qq = if q < k { q } else { q + 1 };
            assert(without[p] == m.items[pp] && without[q] == m.items[qq]);
        }
        assert forall|p: int| 0 <= p < without.len()
            implies node_in_bounds(#[trigger] without[p], m.rows, m.cols) by {
            let pp = if p < k { p } else { p + 1 };
            assert(without[p] == m.items[pp]);
        }
    }
    lemma_cascade_place(without, m.rows, m.cols, id, nx, ny, n.w, n.h);
    let (mvs, t) = cascade_place(without, m.rows, id, nx, ny, n.w, n.h)->Some_0;
    let t2 = put_node(t, moved);
    lemma_put_node(t, moved);
    assert(!has_id(t, id)) by {
        lemma_find_id(t, id);
        if find_id(t, id) < t.len() {
            let i = find_id(t, id);
            assert(t[i].id == without[i].id);
            lemma_find_id(without, id);
            assert(has_id(without, id));
        }
    }
    let kk = insert_pos(t, id);
    lemma_insert_pos(t, id);
    lemma_find_id(t, id);
    assert(forall|i: int| 0 <= i < t.len() ==> (#[trigger] t[i]).id != id);
    assert(state_ok(GridModel { rows: m.rows, cols: m.cols, items: t2 })) by {
        assert forall|p: int, q: int|
            0 <= p < t2.len() && 0 <= q < t2.len() && p != q
            implies !rects_overlap(#[trigger] t2[p], #[trigger] t2[q]) by {
            if p == kk {
                let qq = if q < kk { q } else { q - 1 };
                assert(t2[q] == t[qq]);
                assert(t[qq].id != id);
                assert(!overlaps_rect(t[qq], nx, ny, n.w, n.h));
            } else if q == kk {
                let pp = if p < kk { p } else { p - 1 };
                assert(t2[p] == t[pp]);
                assert(t[pp].id != id);
                assert(!overlaps_rect(t[pp], nx, ny, n.w, n.h));
            } else {
                let pp = if p < kk { p } else { p - 1 };
                let qq = if q < kk { q } else { q - 1 };
                assert(t2[p] == t[pp] && t2[q] == t[qq]);
            }
        }
        assert forall|p: int| 0 <= p < t2.len()
            implies node_in_bounds(#[trigger] t2[p], m.rows, m.cols) by {
            if p != kk {
                let pp = if p < kk { p } else { p - 1 };
                assert(t2[p] == t[pp]);
            }
        }
    }
    // replay: the displacement moves never touch the mover's identifier
    assert forall|q: int| 0 <= q < mvs.len()
        implies change_target_id(#[trigger] mvs[q]) != id by {
        let i = choose|i: int|
            0 <= i < without.len() && without[i].id == change_target_id(mvs[q]);
        if without[i].id == id {
            lemma_find_id(without, id);
            assert(has_id(without, id));
        }
    }
    lemma_remove_put_roundtrip(m.items, k);
    assert(put_node(without, n) == m.items);
    lemma_moves_commute(without, n, mvs);
    assert(items_after(m.items, mvs) == put_node(t, n));
    lemma_items_after_push(m.items, mvs, ChangeModel::Move { old_value: n, new_value: moved });
    assert(items_after(m.items, mvs.push(ChangeModel::Move { old_value: n, new_value: moved }))
        == put_node(put_node(t, n), moved));
    lemma_put_put_same_id(t, n, moved);
}


/// Removing an identifier keeps a state well formed.
pub proof fn lemma_remove_state_ok(m: GridModel, id: Seq<char>)
    requires
        state_ok(m),
    ensures
        state_ok(GridModel { rows: m.rows, cols: m.cols, items: remove_id(m.items, id) }),
{
    lemma_find_id(m.items, id);
    lemma_remove_id(m.items, id);
    if has_id(m.items, id) {
        let k = find_id(m.items, id);
        let t = remove_id(m.items, id);
        assert forall|p: int, q: int|
            0 <= p < t.len() && 0 <= q < t.len() && p != q
            implies !rects_overlap(#[trigger] t[p], #[trigger] t[q]) by {
            let pp = if p < k { p } else { p + 1 };
            let qq = if q < k { q } else { q + 1 };
            assert(t[p] == m.items[pp] && t[q] == m.items[qq]);
        }
        assert forall|p: int| 0 <= p < t.len()
            implies node_in_bounds(#[trigger] t[p], m.rows, m.cols) by {
            let pp = if p < k { p } else { p + 1 };
            assert(t[p] == m.items[pp]);
        }
    }
}


proof fn lemma_lex_chain(s: Seq<NodeModel>, i: int, j: int)
    requires
        forall|p: int| 0 <= p < s.len() - 1 ==> lex_lt((#[trigger] s[p]).id, s[p + 1].id),
        0 <= i < j < s.len(),
    ensures
        lex_lt(s[i].id, s[j].id),
    decreases j - i,
{
    if j == i + 1 {
    } else {
        lemma_lex_chain(s, i, j - 1);
        lemma_lex_transitive(s[i].id, s[j - 1].id, s[j].id);
    }
}

/// A sequence whose neighbours are ordered is sorted throughout.
pub proof fn lemma_sorted_from_adjacent(s: Seq<NodeModel>)
    requires
        forall|p: int| 0 <= p < s.len() - 1 ==> lex_lt((#[trigger] s[p]).id, s[p + 1].id),
    ensures
        sorted_by_id(s),
{
    assert forall|i: int, j: int| 0 <= i < j < s.len()
        implies lex_lt(#[trigger] s[i].id, #[trigger] s[j].id) by {
        lemma_lex_chain(s, i, j);
    }
}

} // verus!
