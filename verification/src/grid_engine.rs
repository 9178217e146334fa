//! The grid engine: identified rectangles on a fixed grid, with deterministic
//! collision resolution, a change log, and an event bus reporting every
//! applied batch.

use vstd::prelude::*;
use crate::model::BatchModel;
use crate::model::ChangeModel;
use crate::model::EventModel;
use crate::model::NodeModel;
use crate::model::all_in_bounds;
use crate::model::cascade_ids as spec_cascade_ids;
use crate::model::cascade_place as spec_cascade_place;
use crate::model::cell_owner;
use crate::model::colliders;
use crate::model::displaced;
use crate::error::GridError;
use crate::error::GridErrorKind;
use crate::model::BatchModel as MBatchModel;
use crate::model::EventModel as MEventModel;
use crate::model::insert_pos;
use crate::model::lemma_add_ok;
use crate::model::lemma_move_ok;
use crate::model::lemma_remove_ok;
use crate::model::lemma_remove_state_ok;
use crate::model::spec_add;
use crate::model::spec_move;
use crate::model::spec_remove;
use crate::model::items_after;
use crate::model::items_after_change;
use crate::model::lemma_cascade_place;
use crate::model::lemma_displace_step;
use crate::model::lemma_insert_pos;
use crate::model::lemma_put_node;
use crate::model::lemma_remove_id;
use crate::model::node_in_bounds;
use crate::model::put_node;
use crate::model::remove_id;
use crate::model::rects_overlap;
use crate::model::state_ok;
use crate::model::GridModel;
use crate::cells::cells_of;
use crate::engine_events::bus_wf;
use crate::engine_events::subs_published;
use crate::engine_events::BusModel;
use crate::engine_events::EventListener;
use crate::ser::hash_str;
use crate::model::pairwise_disjoint;
use crate::model::sorted_by_id;
use crate::model::colliders_from;
use crate::model::covers;
use crate::model::find_id;
use crate::model::lemma_find_id;
use crate::model::overlaps_rect;

verus! {

/// An identified rectangle: its top-left corner at column `x`, row `y`, and
/// its extent `w` columns by `h` rows.
#[derive(Debug, Eq, Hash)]
pub struct Node {
    pub id: String,
    pub x: usize,
    pub y: usize,
    pub w: usize,
    pub h: usize,
}

impl View for Node {
    type V = NodeModel;

    open spec fn view(&self) -> NodeModel {
        NodeModel {
            id: self.id@,
            x: self.x as int,
            y: self.y as int,
            w: self.w as int,
            h: self.h as int,
        }
    }
}

impl Node {
    /// Builds a node from its identifier, position and size.
    pub fn new(id: String, x: usize, y: usize, w: usize, h: usize) -> (r: Node)
        ensures
            r@ == (NodeModel { id: id@, x: x as int, y: y as int, w: w as int, h: h as int }),
    {
        Node { id, x, y, w, h }
    }

    /// The identifier of this node.
    pub fn get_id(&self) -> (r: String)
        ensures
            r@ == self@.id,
    {
        self.id.clone()
    }

    /// An equal, independently owned node.
    pub fn duplicate(&self) -> (r: Node)
        ensures
            r == *self,
    {
        Node { id: self.id.clone(), x: self.x, y: self.y, w: self.w, h: self.h }
    }
}

impl Clone for Node {
    fn clone(&self) -> (r: Node)
        ensures
            r == *self,
    {
        self.duplicate()
    }
}

impl PartialEq for Node {
    fn eq(&self, other: &Node) -> (r: bool) {
        self.id == other.id && self.x == other.x && self.y == other.y && self.w == other.w
            && self.h == other.h
    }
}

impl vstd::std_specs::cmp::PartialEqSpecImpl for Node {
    open spec fn obeys_eq_spec() -> bool {
        true
    }

    open spec fn eq_spec(&self, other: &Node) -> bool {
        self@ == other@
    }
}

/// The payload of an `Add` change: the node that enters the grid.
#[derive(Debug, Clone, PartialEq, Eq, Hash)]
pub struct AddChangeData {
    pub value: Node,
}

/// The payload of a `Remove` change: the node, captured at removal time.
#[derive(Debug, Clone, PartialEq, Eq, Hash)]
pub struct RemoveChangeData {
    pub value: Node,
}

/// The payload of a `Move` change: the node before and after the move.
#[derive(Debug, Clone, PartialEq, Eq, Hash)]
pub struct MoveChangeData {
    pub old_value: Node,
    pub new_value: Node,
}

/// One recorded mutation of the grid.
#[derive(Debug, Clone, PartialEq, Eq, Hash)]
pub enum Change {
    Add(AddChangeData),
    Remove(RemoveChangeData),
    Move(MoveChangeData),
}

impl View for Change {
    type V = ChangeModel;

    open spec fn view(&self) -> ChangeModel {
        match self {
            Change::Add(d) => ChangeModel::Add { value: d.value@ },
            Change::Remove(d) => ChangeModel::Remove { value: d.value@ },
            Change::Move(d) => ChangeModel::Move {
                old_value: d.old_value@,
                new_value: d.new_value@,
            },
        }
    }
}

impl Change {
    /// An equal, independently owned change.
    pub fn duplicate(&self) -> (r: Change)
        ensures
            r@ == self@,
    {
        match self {
            Change::Add(d) => Change::Add(AddChangeData { value: d.value.duplicate() }),
            Change::Remove(d) => Change::Remove(RemoveChangeData { value: d.value.duplicate() }),
            Change::Move(d) => Change::Move(MoveChangeData {
                old_value: d.old_value.duplicate(),
                new_value: d.new_value.duplicate(),
            }),
        }
    }
}

/// The views of a sequence of nodes.
pub open spec fn nodes_view(s: Seq<Node>) -> Seq<NodeModel> {
    s.map_values(|n: Node| n@)
}

/// The views of a sequence of changes.
pub open spec fn changes_view(s: Seq<Change>) -> Seq<ChangeModel> {
    s.map_values(|c: Change| c@)
}

/// An equal, independently owned change list.
pub fn duplicate_changes(cs: &Vec<Change>) -> (r: Vec<Change>)
    ensures
        changes_view(r@) == changes_view(cs@),
        r@.len() == cs@.len(),
{
    let mut r: Vec<Change> = Vec::new();
    let mut i: usize = 0;
    while i < cs.len()
        invariant
            i <= cs@.len(),
            r@.len() == i,
            forall|q: int| 0 <= q < i ==> (#[trigger] r@[q])@ == cs@[q]@,
        decreases cs@.len() - i,
    {
        r.push(cs[i].duplicate());
        i = i + 1;
    }
    proof {
        assert(changes_view(r@) =~= changes_view(cs@));
    }
    r
}

/// One batch of changes bracketed by the view hashes before and after it was
/// applied on its originator.
#[derive(Debug, Clone, PartialEq, Eq, Hash)]
pub struct BatchChangeValue {
    pub changes: Vec<Change>,
    pub hash_before: String,
    pub hash_after: String,
}

impl View for BatchChangeValue {
    type V = BatchModel;

    open spec fn view(&self) -> BatchModel {
        BatchModel {
            changes: changes_view(self.changes@),
            hash_before: self.hash_before@,
            hash_after: self.hash_after@,
        }
    }
}

impl BatchChangeValue {
    /// An equal, independently owned batch.
    pub fn duplicate(&self) -> (r: BatchChangeValue)
        ensures
            r@ == self@,
    {
        let r = BatchChangeValue {
            changes: duplicate_changes(&self.changes),
            hash_before: self.hash_before.clone(),
            hash_after: self.hash_after.clone(),
        };
        r
    }
}

/// The payload an event carries.
#[derive(Debug, Clone, PartialEq, Eq, Hash)]
pub enum EventValue {
    BatchChange(BatchChangeValue),
}

impl View for EventValue {
    type V = EventModel;

    open spec fn view(&self) -> EventModel {
        match self {
            EventValue::BatchChange(v) => EventModel::BatchChange(v@),
        }
    }
}

impl EventValue {
    /// An equal, independently owned event payload.
    pub fn duplicate(&self) -> (r: EventValue)
        ensures
            r@ == self@,
    {
        match self {
            EventValue::BatchChange(v) => EventValue::BatchChange(v.duplicate()),
        }
    }
}

/// The name an event is published under.
#[derive(Debug, Clone, Copy, PartialEq, Eq, Structural, Hash)]
pub enum EventName {
    BatchChange,
}


/// The views of a sequence of identifiers.
pub open spec fn ids_view(s: Seq<String>) -> Seq<Seq<char>> {
    s.map_values(|t: String| t@)
}

/// The position of the node carrying the given identifier, or the number of
/// nodes when none does.
fn find_node(items: &Vec<Node>, id: &String) -> (r: usize)
    ensures
        r as int == find_id(nodes_view(items@), id@),
{
    let ghost s = nodes_view(items@);
    let mut i: usize = 0;
    loop
        invariant
            i <= items@.len(),
            s == nodes_view(items@),
            s.len() == items@.len(),
            forall|q: int| 0 <= q < i ==> (#[trigger] s[q]).id != id@,
        decreases items@.len() - i,
    {
        proof {
            lemma_find_id(s, id@);
        }
        if i == items.len() {
            return i;
        }
        if items[i].id == *id {
            assert(s[i as int].id == id@);
            return i;
        }
        assert(s[i as int].id != id@);
        i = i + 1;
    }
}

/// Whether the node covers the cell at column `x`, row `y`.
fn covers_exec(n: &Node, x: usize, y: usize) -> (r: bool)
    ensures
        r == covers(n@, x as int, y as int),
{
    x >= n.x && x - n.x < n.w && y >= n.y && y - n.y < n.h
}

/// Whether the node meets the rectangle at `(x, y)` of width `w`, height `h`.
fn overlaps_exec(n: &Node, x: usize, y: usize, w: usize, h: usize) -> (r: bool)
    requires
        n@.x + n@.w <= usize::MAX,
        n@.y + n@.h <= usize::MAX,
        x + w <= usize::MAX,
        y + h <= usize::MAX,
    ensures
        r == overlaps_rect(n@, x as int, y as int, w as int, h as int),
{
    n.x < x + w && x < n.x + n.w && n.y < y + h && y < n.y + n.h
}

/// The identifier covering the cell at column `x`, row `y`, if any.
pub fn owner_at(items: &Vec<Node>, x: usize, y: usize) -> (r: Option<String>)
    ensures
        crate::cells::opt_id_view(r) == cell_owner(nodes_view(items@), x as int, y as int),
{
    let ghost s = nodes_view(items@);
    let mut i: usize = 0;
    proof {
        assert(s.skip(0) =~= s);
    }
    loop
        invariant
            i <= items@.len(),
            s == nodes_view(items@),
            s.len() == items@.len(),
            cell_owner(s, x as int, y as int) == cell_owner(s.skip(i as int), x as int, y as int),
        decreases items@.len() - i,
    {
        if i == items.len() {
            assert(s.skip(i as int).len() == 0);
            return None;
        }
        assert(s.skip(i as int)[0] == s[i as int]);
        if covers_exec(&items[i], x, y) {
            assert(cell_owner(s, x as int, y as int) == Some(s[i as int].id));
            return Some(items[i].id.clone());
        }
        assert(s.skip(i as int).skip(1) =~= s.skip(i + 1));
        i = i + 1;
    }
}

/// Whether one of the gathered identifiers equals the given one.
fn vec_has_id(acc: &Vec<String>, id: &String) -> (r: bool)
    ensures
        r == ids_view(acc@).contains(id@),
{
    let ghost v = ids_view(acc@);
    let mut i: usize = 0;
    loop
        invariant
            i <= acc@.len(),
            v == ids_view(acc@),
            v.len() == acc@.len(),
            forall|q: int| 0 <= q < i ==> (#[trigger] v[q]) != id@,
        decreases acc@.len() - i,
    {
        if i == acc.len() {
            assert(!v.contains(id@));
            return false;
        }
        if acc[i] == *id {
            assert(v[i as int] == id@);
            return true;
        }
        i = i + 1;
    }
}

/// The identifiers other than `excl` whose cells meet the given rectangle, in
/// first-seen column-major order, without repetition.
fn colliders_exec(
    items: &Vec<Node>,
    excl: &String,
    x: usize,
    y: usize,
    w: usize,
    h: usize,
) -> (r: Vec<String>)
    requires
        x + w <= usize::MAX,
        y + h <= usize::MAX,
    ensures
        ids_view(r@) == colliders(nodes_view(items@), excl@, x as int, y as int, w as int, h as int),
{
    let ghost s = nodes_view(items@);
    let ghost full = colliders(s, excl@, x as int, y as int, w as int, h as int);
    let mut acc: Vec<String> = Vec::new();
    let mut xi: usize = x;
    proof {
        assert(ids_view(acc@) =~= Seq::<Seq<char>>::empty());
    }
    while xi < x + w
        invariant
            x <= xi <= x + w,
            x + w <= usize::MAX,
            y + h <= usize::MAX,
            s == nodes_view(items@),
            full == colliders(s, excl@, x as int, y as int, w as int, h as int),
            full == colliders_from(
                s, excl@, x as int, y as int, w as int, h as int,
                xi as int, y as int, ids_view(acc@),
            ),
        decreases x + w - xi,
    {
        let mut yi: usize = y;
        while yi < y + h
            invariant
                x <= xi < x + w,
                y <= yi <= y + h,
                x + w <= usize::MAX,
                y + h <= usize::MAX,
                s == nodes_view(items@),
                full == colliders(s, excl@, x as int, y as int, w as int, h as int),
                full == colliders_from(
                    s, excl@, x as int, y as int, w as int, h as int,
                    xi as int, yi as int, ids_view(acc@),
                ),
            decreases y + h - yi,
        {
            let ghost before = ids_view(acc@);
            let owner = owner_at(items, xi, yi);
            match owner {
                Some(id) => {
                    if id != *excl && !vec_has_id(&acc, &id) {
                        acc.push(id);
                        proof {
                            assert(ids_view(acc@) =~= before.push(acc@[acc@.len() - 1]@));
                        }
                    }
                },
                None => {},
            }
            proof {
                let sx = xi as int;
                let sy = yi as int;
                assert(colliders_from(
                    s, excl@, x as int, y as int, w as int, h as int, sx, sy, before,
                ) == colliders_from(
                    s, excl@, x as int, y as int, w as int, h as int, sx, sy + 1, ids_view(acc@),
                ));
            }
            yi = yi + 1;
        }
        xi = xi + 1;
    }
    acc
}


/// The requirements under which the cascade runs: a well-formed item list
/// and a target rectangle of positive size whose bottom edge stays on the
/// grid.
pub open spec fn cascade_pre(
    s: Seq<NodeModel>,
    rows: int,
    cols: int,
    x: int,
    y: int,
    w: int,
    h: int,
) -> bool {
    &&& all_in_bounds(s, rows, cols)
    &&& sorted_by_id(s)
    &&& pairwise_disjoint(s)
    &&& y + h <= rows
    &&& 1 <= h
    &&& 1 <= w
    &&& x + w <= usize::MAX
}

/// Runs the collision-resolution cascade for the rectangle at `(x, y)` of
/// width `w`, height `h`, on behalf of the node with identifier `excl`:
/// appends the displacement moves to `moves` and returns the items after
/// them, or `None` when a displacement would leave the grid.
fn casc_place(
    items: Vec<Node>,
    rows: usize,
    cols: usize,
    excl: &String,
    x: usize,
    y: usize,
    w: usize,
    h: usize,
    moves: &mut Vec<Change>,
) -> (r: Option<Vec<Node>>)
    requires
        cascade_pre(nodes_view(items@), rows as int, cols as int, x as int, y as int, w as int,
            h as int),
    ensures
        ({
            let sp = spec_cascade_place(nodes_view(items@), rows as int, excl@, x as int,
                y as int, w as int, h as int);
            match r {
                None => sp is None,
                Some(t) => {
                    &&& sp is Some
                    &&& nodes_view(t@) == sp->Some_0.1
                    &&& changes_view(final(moves)@)
                        == changes_view(old(moves)@) + sp->Some_0.0
                },
            }
        }),
    decreases rows - y, 1int, 0int,
{
    let ids = colliders_exec(&items, excl, x, y, w, h);
    let r = casc_ids(items, rows, cols, excl, x, y, w, h, &ids, 0, moves);
    r
}

/// Processes the gathered collider identifiers in order, displacing each one
/// that is still in the way.
fn casc_ids(
    items: Vec<Node>,
    rows: usize,
    cols: usize,
    excl: &String,
    x: usize,
    y: usize,
    w: usize,
    h: usize,
    ids: &Vec<String>,
    j: usize,
    moves: &mut Vec<Change>,
) -> (r: Option<Vec<Node>>)
    requires
        cascade_pre(nodes_view(items@), rows as int, cols as int, x as int, y as int, w as int,
            h as int),
    ensures
        ({
            let sp = spec_cascade_ids(nodes_view(items@), rows as int, excl@, x as int, y as int,
                w as int, h as int, ids_view(ids@), j as int);
            match r {
                None => sp is None,
                Some(t) => {
                    &&& sp is Some
                    &&& nodes_view(t@) == sp->Some_0.1
                    &&& changes_view(final(moves)@)
                        == changes_view(old(moves)@) + sp->Some_0.0
                },
            }
        }),
    decreases rows - y, 0int, ids@.len() - j,
{
    let ghost s = nodes_view(items@);
    let ghost sp = spec_cascade_ids(s, rows as int, excl@, x as int, y as int, w as int, h as int,
        ids_view(ids@), j as int);
    if j >= ids.len() {
        proof {
            assert(changes_view(final(moves)@) =~= changes_view(old(moves)@)
                + Seq::<ChangeModel>::empty());
        }
        return Some(items);
    }
    let k = find_node(&items, &ids[j]);
    proof {
        assert(ids_view(ids@)[j as int] == ids@[j as int]@);
        crate::model::lemma_find_id(s, ids@[j as int]@);
    }
    if k >= items.len() {
        let r = casc_ids(items, rows, cols, excl, x, y, w, h, ids, j + 1, moves);
        return r;
    }
    let c = items[k].duplicate();
    assert(c@ == s[k as int]);
    if !overlaps_exec(&c, x, y, w, h) {
        let r = casc_ids(items, rows, cols, excl, x, y, w, h, ids, j + 1, moves);
        return r;
    }
    let ny = y + h;
    if c.h == 0 || c.w == 0 || c.h > rows - ny {
        assert(sp is None);
        return None;
    }
    proof {
        lemma_cascade_place(s, rows as int, cols as int, c@.id, c@.x, ny as int, c@.w, c@.h);
    }
    let sub = casc_place(items, rows, cols, &c.id, c.x, ny, c.w, c.h, moves);
    let mut items2 = match sub {
        None => {
            return None;
        },
        Some(t) => t,
    };
    let ghost s2 = nodes_view(items2@);
    let k2 = find_node(&items2, &c.id);
    if k2 >= items2.len() {
        return None;
    }
    let old_node = items2[k2].duplicate();
    let c2 = Node {
        id: old_node.id.clone(),
        x: old_node.x,
        y: ny,
        w: old_node.w,
        h: old_node.h,
    };
    assert(c2@ == displaced(s2[k2 as int], ny as int));
    let mv = Change::Move(MoveChangeData { old_value: old_node, new_value: c2.duplicate() });
    let elem = &mut items2[k2];
    *elem = c2;
    proof {
        assert(nodes_view(items2@) =~= s2.update(k2 as int, displaced(s2[k2 as int], ny as int)));
        crate::model::lemma_find_id(s2, c@.id);
        assert(s2[k as int].id == c@.id);
        crate::model::lemma_id_unique(s2, k as int);
        assert(k2 == k);
        assert(s2[k2 as int].x == c@.x && s2[k2 as int].w == c@.w && s2[k2 as int].h == c@.h);
        lemma_displace_step(s2, rows as int, cols as int, k2 as int, ny as int);
    }
    let ghost moves_before_mv = changes_view(moves@);
    moves.push(mv);
    proof {
        assert(changes_view(moves@) =~= moves_before_mv.push(mv@));
    }
    let ghost moves_after_mv = changes_view(moves@);
    let r = casc_ids(items2, rows, cols, excl, x, y, w, h, ids, j + 1, moves);
    proof {
        let sub_sp = spec_cascade_place(s, rows as int, c@.id, c@.x, ny as int, c@.w, c@.h);
        let rest_sp = spec_cascade_ids(nodes_view(items2@), rows as int, excl@, x as int,
            y as int, w as int, h as int, ids_view(ids@), j + 1);
        if r is Some {
            assert(changes_view(final(moves)@) =~= changes_view(old(moves)@)
                + (sub_sp->Some_0.0 + seq![mv@] + rest_sp->Some_0.0)) by {
                assert(moves_before_mv == changes_view(old(moves)@) + sub_sp->Some_0.0);
                assert(moves_after_mv =~= moves_before_mv.push(mv@));
            }
        }
    }
    r
}


/// An equal, independently owned node list.
pub fn clone_nodes(items: &Vec<Node>) -> (r: Vec<Node>)
    ensures
        nodes_view(r@) == nodes_view(items@),
        r@.len() == items@.len(),
{
    let mut r: Vec<Node> = Vec::new();
    let mut i: usize = 0;
    while i < items.len()
        invariant
            i <= items@.len(),
            r@.len() == i,
            forall|q: int| 0 <= q < i ==> (#[trigger] r@[q])@ == items@[q]@,
        decreases items@.len() - i,
    {
        r.push(items[i].duplicate());
        i = i + 1;
    }
    proof {
        assert(nodes_view(r@) =~~= nodes_view(items@));
    }
    r
}

/// Writes a node into the sorted item list: replaces the node already
/// carrying its identifier or inserts it at its sorted position.
fn put_node_exec(items: &mut Vec<Node>, n: Node)
    requires
        crate::model::sorted_by_id(nodes_view(old(items)@)),
    ensures
        nodes_view(final(items)@) == put_node(nodes_view(old(items)@), n@),
{
    let ghost s = nodes_view(items@);
    proof {
        lemma_put_node(s, n@);
        lemma_find_id(s, n@.id);
    }
    let k = find_node(items, &n.id);
    if k < items.len() {
        let _ = items.remove(k);
        items.insert(k, n);
        proof {
            assert(nodes_view(items@) =~~= s.update(k as int, n@));
            assert(put_node(s, n@) =~~= s.update(k as int, n@));
        }
        return;
    }
    proof {
        lemma_insert_pos(s, n@.id);
    }
    let mut p: usize = 0;
    proof {
        assert(s.skip(0) =~= s);
    }
    while p < items.len() && crate::text::str_lt(items[p].id.as_str(), n.id.as_str())
        invariant
            p <= items@.len(),
            s == nodes_view(items@),
            s.len() == items@.len(),
            insert_pos(s, n@.id) == p + insert_pos(s.skip(p as int), n@.id),
        decreases items@.len() - p,
    {
        assert(s.skip(p as int)[0] == s[p as int]);
        assert(s.skip(p as int).skip(1) =~= s.skip(p + 1));
        p = p + 1;
    }
    proof {
        if p == items@.len() {
            assert(s.skip(p as int).len() == 0);
            assert(insert_pos(s.skip(p as int), n@.id) == 0);
        } else {
            assert(s.skip(p as int)[0] == s[p as int]);
            assert(insert_pos(s.skip(p as int), n@.id) == 0);
        }
        assert(insert_pos(s, n@.id) == p as int);
    }
    items.insert(p, n);
    proof {
        assert(nodes_view(items@) =~~= s.take(p as int) + seq![n@] + s.skip(p as int));
    }
}

/// Drops the node carrying the given identifier from the item list, if any.
fn remove_node_exec(items: &mut Vec<Node>, id: &String)
    ensures
        nodes_view(final(items)@) == remove_id(nodes_view(old(items)@), id@),
{
    let ghost s = nodes_view(items@);
    proof {
        lemma_find_id(s, id@);
    }
    let k = find_node(items, id);
    if k < items.len() {
        let _ = items.remove(k);
        proof {
            assert(nodes_view(items@) =~~= s.take(k as int) + s.skip(k as int + 1));
        }
    }
}

/// Applies a batch of changes to the item list, in order: `Add` and `Move`
/// write the node the change carries, `Remove` drops the identifier.
fn apply_items(items: &mut Vec<Node>, changes: &Vec<Change>)
    requires
        crate::model::sorted_by_id(nodes_view(old(items)@)),
    ensures
        nodes_view(final(items)@) == items_after(
            nodes_view(old(items)@),
            changes_view(changes@),
        ),
        crate::model::sorted_by_id(nodes_view(final(items)@)),
{
    let ghost s0 = nodes_view(items@);
    let ghost cs = changes_view(changes@);
    let mut i: usize = 0;
    proof {
        assert(cs.skip(0) =~= cs);
    }
    while i < changes.len()
        invariant
            i <= changes@.len(),
            cs == changes_view(changes@),
            cs.len() == changes@.len(),
            crate::model::sorted_by_id(nodes_view(items@)),
            items_after(s0, cs) == items_after(nodes_view(items@), cs.skip(i as int)),
        decreases changes@.len() - i,
    {
        let ghost before = nodes_view(items@);
        proof {
            assert(cs.skip(i as int)[0] == cs[i as int]);
            assert(cs[i as int] == changes@[i as int]@);
            match cs[i as int] {
                ChangeModel::Add { value } => {
                    lemma_put_node(before, value);
                },
                ChangeModel::Remove { value } => {
                    lemma_remove_id(before, value.id);
                },
                ChangeModel::Move { old_value, new_value } => {
                    lemma_put_node(before, new_value);
                },
            }
        }
        match &changes[i] {
            Change::Add(d) => {
                put_node_exec(items, d.value.duplicate());
            },
            Change::Remove(d) => {
                remove_node_exec(items, &d.value.id);
            },
            Change::Move(d) => {
                put_node_exec(items, d.new_value.duplicate());
            },
        }
        proof {
            assert(nodes_view(items@) == items_after_change(before, cs[i as int]));
            assert(cs.skip(i as int).skip(1) =~= cs.skip(i + 1));
        }
        i = i + 1;
    }
    proof {
        assert(cs.skip(changes@.len() as int).len() == 0);
    }
}

/// Whether every node lies within the grid with positive extent.
pub(crate) fn check_bounds(items: &Vec<Node>, rows: usize, cols: usize) -> (r: bool)
    ensures
        r == all_in_bounds(nodes_view(items@), rows as int, cols as int),
{
    let ghost s = nodes_view(items@);
    let mut i: usize = 0;
    while i < items.len()
        invariant
            i <= items@.len(),
            s == nodes_view(items@),
            s.len() == items@.len(),
            forall|q: int| 0 <= q < i ==> node_in_bounds(#[trigger] s[q], rows as int, cols as int),
        decreases items@.len() - i,
    {
        let n = &items[i];
        let ok = n.w >= 1 && n.h >= 1 && n.w <= cols && n.x <= cols - n.w && n.h <= rows
            && n.y <= rows - n.h;
        if !ok {
            assert(!node_in_bounds(s[i as int], rows as int, cols as int));
            return false;
        }
        assert(node_in_bounds(s[i as int], rows as int, cols as int));
        i = i + 1;
    }
    true
}

/// Whether no two nodes of the list overlap.
pub(crate) fn check_disjoint(items: &Vec<Node>, rows: usize, cols: usize) -> (r: bool)
    requires
        all_in_bounds(nodes_view(items@), rows as int, cols as int),
    ensures
        r == pairwise_disjoint(nodes_view(items@)),
{
    let ghost s = nodes_view(items@);
    let mut i: usize = 0;
    while i < items.len()
        invariant
            i <= items@.len(),
            s == nodes_view(items@),
            s.len() == items@.len(),
            all_in_bounds(s, rows as int, cols as int),
            forall|p: int, q: int| 0 <= p < i && 0 <= q < s.len() && p != q
                ==> !rects_overlap(#[trigger] s[p], #[trigger] s[q]),
        decreases items@.len() - i,
    {
        let mut j: usize = i + 1;
        while j < items.len()
            invariant
                i < items@.len(),
                i < j <= items@.len(),
                s == nodes_view(items@),
                s.len() == items@.len(),
                all_in_bounds(s, rows as int, cols as int),
                forall|q: int| i < q < j ==> !rects_overlap(s[i as int], #[trigger] s[q]),
            decreases items@.len() - j,
        {
            let a = &items[i];
            let b = &items[j];
            assert(node_in_bounds(s[i as int], rows as int, cols as int));
            assert(node_in_bounds(s[j as int], rows as int, cols as int));
            let hit = a.x < b.x + b.w && b.x < a.x + a.w && a.y < b.y + b.h && b.y < a.y + a.h;
            if hit {
                assert(rects_overlap(s[i as int], s[j as int]));
                return false;
            }
            assert(!rects_overlap(s[i as int], s[j as int]));
            j = j + 1;
        }
        proof {
            assert forall|q: int| 0 <= q < s.len() && q != i
                implies !rects_overlap(s[i as int], #[trigger] s[q]) by {
                if q < i {
                    assert(!rects_overlap(s[q], s[i as int]));
                }
            }
            assert forall|p: int, q: int| 0 <= p <= i && 0 <= q < s.len() && p != q
                implies !rects_overlap(#[trigger] s[p], #[trigger] s[q]) by {
                if p < i {
                } else {
                    assert(!rects_overlap(s[i as int], s[q]));
                }
            }
        }
        i = i + 1;
    }
    true
}


/// Rewrites every cell of the occupancy grid from the item list: each cell
/// holds the identifier of the item covering it, or nothing.
fn rebuild_grid(
    grid: &mut grid::Grid<Option<String>>,
    rows: usize,
    cols: usize,
    items: &Vec<Node>,
)
    requires
        cells_of(*old(grid)).len() == rows as int,
        forall|r: int| 0 <= r < rows ==> (#[trigger] cells_of(*old(grid))[r]).len() == cols as int,
    ensures
        cells_of(*final(grid)).len() == rows as int,
        forall|r: int| 0 <= r < rows ==> (#[trigger] cells_of(*final(grid))[r]).len() == cols as int,
        forall|r: int, c: int|
            0 <= r < rows && 0 <= c < cols ==> (#[trigger] cells_of(*final(grid))[r][c])
                == cell_owner(nodes_view(items@), c, r),
{
    let ghost s = nodes_view(items@);
    let mut rr: usize = 0;
    while rr < rows
        invariant
            rr <= rows,
            s == nodes_view(items@),
            cells_of(*grid).len() == rows as int,
            forall|r: int| 0 <= r < rows ==> (#[trigger] cells_of(*grid)[r]).len() == cols as int,
            forall|r: int, c: int|
                0 <= r < rr && 0 <= c < cols ==> (#[trigger] cells_of(*grid)[r][c])
                    == cell_owner(s, c, r),
        decreases rows - rr,
    {
        let mut cc: usize = 0;
        while cc < cols
            invariant
                rr < rows,
                cc <= cols,
                s == nodes_view(items@),
                cells_of(*grid).len() == rows as int,
                forall|r: int| 0 <= r < rows
                    ==> (#[trigger] cells_of(*grid)[r]).len() == cols as int,
                forall|r: int, c: int|
                    0 <= r < rr && 0 <= c < cols ==> (#[trigger] cells_of(*grid)[r][c])
                        == cell_owner(s, c, r),
                forall|c: int|
                    0 <= c < cc ==> (#[trigger] cells_of(*grid)[rr as int][c])
                        == cell_owner(s, c, rr as int),
            decreases cols - cc,
        {
            let owner = owner_at(items, cc, rr);
            let ghost before = cells_of(*grid);
            crate::cells::grid_set(grid, rr, cc, owner);
            proof {
                assert(cells_of(*grid)[rr as int][cc as int] == cell_owner(s, cc as int,
                    rr as int));
                assert(forall|r: int| 0 <= r < rows && r != rr
                    ==> #[trigger] cells_of(*grid)[r] == before[r]);
                assert(forall|c: int| 0 <= c < cols && c != cc
                    ==> #[trigger] cells_of(*grid)[rr as int][c] == before[rr as int][c]);
            }
            cc = cc + 1;
        }
        rr = rr + 1;
    }
}

/// The layout engine: a fixed grid of cells, the stored rectangles sorted by
/// identifier, and the event bus that reports every applied batch.
///
/// Its standing invariants: every cell of every stored node holds that
/// node's identifier and no other cell holds one, and no two stored nodes
/// overlap.
pub struct GridEngine {
    rows: usize,
    cols: usize,
    grid: grid::Grid<Option<String>>,
    items: Vec<Node>,
    pub events: EventListener,
}

impl View for GridEngine {
    type V = GridModel;

    closed spec fn view(&self) -> GridModel {
        GridModel {
            rows: self.rows as int,
            cols: self.cols as int,
            items: nodes_view(self.items@),
        }
    }
}

impl GridEngine {
    /// The state of the engine's event bus.
    pub closed spec fn bus(&self) -> BusModel {
        self.events@
    }

    /// The engine's well-formedness: the stored state is well formed, the
    /// occupancy grid has the engine's dimensions, and each of its cells
    /// holds exactly the identifier of the item covering it.
    pub closed spec fn wf(&self) -> bool {
        &&& state_ok(self@)
        &&& self.rows as int * self.cols as int <= usize::MAX as int
        &&& (self.rows == 0 ==> self.cols == 0)
        &&& (self.cols == 0 ==> self.rows == 0)
        &&& cells_of(self.grid).len() == self.rows as int
        &&& forall|r: int| 0 <= r < self.rows as int
            ==> (#[trigger] cells_of(self.grid)[r]).len() == self.cols as int
        &&& forall|r: int, c: int|
            0 <= r < self.rows as int && 0 <= c < self.cols as int
                ==> (#[trigger] cells_of(self.grid)[r][c]) == cell_owner(self@.items, c, r)
        &&& bus_wf(self.events@)
    }

    /// A well-formed engine's stored state is well formed: its nodes lie
    /// within the grid, are sorted by identifier, and never overlap.
    pub proof fn lemma_wf_state(&self)
        requires
            self.wf(),
        ensures
            state_ok(self@),
            self@.rows * self@.cols <= usize::MAX as int,
            self@.rows >= 0,
            self@.cols >= 0,
    {
    }

    /// A fresh engine of the given dimensions, empty, with an empty event
    /// bus. A zero dimension collapses the grid to no rows and no columns.
    pub fn new(rows: usize, cols: usize) -> (r: GridEngine)
        requires
            rows * cols <= usize::MAX,
        ensures
            r.wf(),
            r@.items.len() == 0,
            rows > 0 && cols > 0 ==> r@.rows == rows as int && r@.cols == cols as int,
            rows == 0 || cols == 0 ==> r@.rows == 0 && r@.cols == 0,
            r.bus().subs.len() == 0,
            r.bus().next_id == 0,
    {
        let rr: usize = if rows == 0 || cols == 0 { 0 } else { rows };
        let cc: usize = if rows == 0 || cols == 0 { 0 } else { cols };
        let grid = crate::cells::grid_new(rr, cc);
        let r = GridEngine {
            rows: rr,
            cols: cc,
            grid,
            items: Vec::new(),
            events: EventListener::default(),
        };
        proof {
            assert(nodes_view(Seq::<Node>::empty()) =~= Seq::<NodeModel>::empty());
            assert forall|rw: int, cl: int|
                0 <= rw < rr as int && 0 <= cl < cc as int
                implies (#[trigger] cells_of(r.grid)[rw][cl]) == cell_owner(r@.items, cl, rw) by {
                assert(cells_of(r.grid)[rw][cl] is None);
            }
        }
        r
    }

    /// Applies a batch whose outcome is already known to be well formed:
    /// folds it into the item list, rewrites the occupancy grid, and
    /// publishes one event carrying the batch and the view hashes before and
    /// after.
    fn commit_batch(&mut self, changes: Vec<Change>)
        requires
            old(self).wf(),
            state_ok(
                GridModel {
                    rows: old(self)@.rows,
                    cols: old(self)@.cols,
                    items: items_after(old(self)@.items, changes_view(changes@)),
                },
            ),
        ensures
            final(self).wf(),
            final(self)@.rows == old(self)@.rows,
            final(self)@.cols == old(self)@.cols,
            final(self)@.items == items_after(old(self)@.items, changes_view(changes@)),
            final(self).bus() == (BusModel {
                subs: subs_published(
                    old(self).bus().subs,
                    EventName::BatchChange,
                    crate::model::EventModel::BatchChange(
                        crate::model::BatchModel {
                            changes: changes_view(changes@),
                            hash_before: hash_str(old(self)@),
                            hash_after: hash_str(
                                GridModel {
                                    rows: old(self)@.rows,
                                    cols: old(self)@.cols,
                                    items: items_after(
                                        old(self)@.items,
                                        changes_view(changes@),
                                    ),
                                },
                            ),
                        },
                    ),
                ),
                next_id: old(self).bus().next_id,
            }),
    {
        let hash_before = crate::ser::hash_view(self.rows, self.cols, &self.items);
        apply_items(&mut self.items, &changes);
        rebuild_grid(&mut self.grid, self.rows, self.cols, &self.items);
        let hash_after = crate::ser::hash_view(self.rows, self.cols, &self.items);
        let value = EventValue::BatchChange(
            BatchChangeValue { changes, hash_before, hash_after },
        );
        self.events.trigger_event(EventName::BatchChange, value);
    }

    /// The bus state after one batch is published over a prior bus.
    pub open spec fn bus_after_batch(
        bus: BusModel,
        m: GridModel,
        items2: Seq<NodeModel>,
        batch: Seq<ChangeModel>,
    ) -> BusModel {
        BusModel {
            subs: subs_published(
                bus.subs,
                EventName::BatchChange,
                MEventModel::BatchChange(
                    MBatchModel {
                        changes: batch,
                        hash_before: hash_str(m),
                        hash_after: hash_str(
                            GridModel { rows: m.rows, cols: m.cols, items: items2 },
                        ),
                    },
                ),
            ),
            next_id: bus.next_id,
        }
    }

    /// Stores a new rectangle: fails on a duplicate identifier or a
    /// rectangle that leaves the grid, otherwise displaces whatever is in
    /// the way, applies the batch, and publishes it.
    pub fn add_item(&mut self, id: String, x: usize, y: usize, w: usize, h: usize) -> (r:
        Result<String, GridError>)
        requires
            old(self).wf(),
        ensures
            final(self).wf(),
            final(self)@.rows == old(self)@.rows,
            final(self)@.cols == old(self)@.cols,
            ({
                let sp = spec_add(old(self)@, id@, x as int, y as int, w as int, h as int);
                match r {
                    Ok(rid) => {
                        &&& sp is Ok
                        &&& rid@ == id@
                        &&& final(self)@.items == sp->Ok_0.0
                        &&& final(self).bus() == GridEngine::bus_after_batch(
                            old(self).bus(), old(self)@, sp->Ok_0.0, sp->Ok_0.1)
                    },
                    Err(e) => {
                        &&& sp is Err
                        &&& e.kind == sp->Err_0
                        &&& final(self)@ == old(self)@
                        &&& final(self).bus() == old(self).bus()
                    },
                }
            }),
    {
        let ghost m = self@;
        let ghost sp = spec_add(m, id@, x as int, y as int, w as int, h as int);
        proof {
            lemma_find_id(m.items, id@);
        }
        let k = find_node(&self.items, &id);
        if k < self.items.len() {
            return Err(GridError::new(GridErrorKind::DuplicateId));
        }
        if w == 0 || h == 0 || w > self.cols || x > self.cols - w || h > self.rows
            || y > self.rows - h {
            return Err(GridError::new(GridErrorKind::OutOfBounds));
        }
        let mut moves: Vec<Change> = Vec::new();
        let scratch = clone_nodes(&self.items);
        let sub = casc_place(scratch, self.rows, self.cols, &id, x, y, w, h, &mut moves);
        match sub {
            None => {
                return Err(GridError::new(GridErrorKind::OutOfBounds));
            },
            Some(_displaced) => {
                let node = Node::new(id.clone(), x, y, w, h);
                moves.push(Change::Add(AddChangeData { value: node }));
                proof {
                    let scp = spec_cascade_place(m.items, m.rows, id@, x as int, y as int,
                        w as int, h as int);
                    assert(changes_view(moves@) =~= scp->Some_0.0.push(
                        ChangeModel::Add {
                            value: NodeModel {
                                id: id@,
                                x: x as int,
                                y: y as int,
                                w: w as int,
                                h: h as int,
                            },
                        },
                    ));
                    assert(changes_view(moves@) == sp->Ok_0.1);
                    lemma_add_ok(m, id@, x as int, y as int, w as int, h as int);
                    assert(items_after(m.items, changes_view(moves@)) == sp->Ok_0.0);
                }
                self.commit_batch(moves);
                return Ok(id);
            },
        }
    }

    /// Repositions a stored rectangle: fails on an unknown identifier or a
    /// target that leaves the grid, otherwise displaces whatever is in the
    /// way of the target — ignoring the mover's own prior cells — applies
    /// the batch, and publishes it.
    pub fn move_item(&mut self, id: &str, new_x: usize, new_y: usize) -> (r: Result<
        (),
        GridError,
    >)
        requires
            old(self).wf(),
        ensures
            final(self).wf(),
            final(self)@.rows == old(self)@.rows,
            final(self)@.cols == old(self)@.cols,
            ({
                let sp = spec_move(old(self)@, id@, new_x as int, new_y as int);
                match r {
                    Ok(_) => {
                        &&& sp is Ok
                        &&& final(self)@.items == sp->Ok_0.0
                        &&& final(self).bus() == GridEngine::bus_after_batch(
                            old(self).bus(), old(self)@, sp->Ok_0.0, sp->Ok_0.1)
                    },
                    Err(e) => {
                        &&& sp is Err
                        &&& e.kind == sp->Err_0
                        &&& final(self)@ == old(self)@
                        &&& final(self).bus() == old(self).bus()
                    },
                }
            }),
    {
        let ghost m = self@;
        let ghost sp = spec_move(m, id@, new_x as int, new_y as int);
        let id_s = String::from_str(id);
        proof {
            lemma_find_id(m.items, id@);
        }
        let k = find_node(&self.items, &id_s);
        if k >= self.items.len() {
            return Err(GridError::new(GridErrorKind::NotFound));
        }
        let n = self.items[k].duplicate();
        assert(n@ == m.items[find_id(m.items, id@)]);
        if n.w > self.cols || new_x > self.cols - n.w || n.h > self.rows
            || new_y > self.rows - n.h {
            return Err(GridError::new(GridErrorKind::OutOfBounds));
        }
        let mut scratch = clone_nodes(&self.items);
        remove_node_exec(&mut scratch, &id_s);
        proof {
            lemma_remove_state_ok(m, id@);
            assert(n@.w >= 1 && n@.h >= 1);
        }
        let mut moves: Vec<Change> = Vec::new();
        let sub = casc_place(scratch, self.rows, self.cols, &id_s, new_x, new_y, n.w, n.h,
            &mut moves);
        match sub {
            None => {
                return Err(GridError::new(GridErrorKind::OutOfBounds));
            },
            Some(_displaced) => {
                let moved = Node::new(id_s.clone(), new_x, new_y, n.w, n.h);
                let ghost n_snap = n@;
                moves.push(Change::Move(MoveChangeData { old_value: n, new_value: moved }));
                proof {
                    let without = remove_id(m.items, id@);
                    let scp = spec_cascade_place(without, m.rows, id@, new_x as int,
                        new_y as int, n_snap.w, n_snap.h);
                    assert(changes_view(moves@) =~= scp->Some_0.0.push(
                        ChangeModel::Move {
                            old_value: n_snap,
                            new_value: NodeModel {
                                id: id@,
                                x: new_x as int,
                                y: new_y as int,
                                w: n_snap.w,
                                h: n_snap.h,
                            },
                        },
                    ));
                    assert(changes_view(moves@) == sp->Ok_0.1);
                    lemma_move_ok(m, id@, new_x as int, new_y as int);
                    assert(items_after(m.items, changes_view(moves@)) == sp->Ok_0.0);
                }
                self.commit_batch(moves);
                return Ok(());
            },
        }
    }

    /// Removes a stored rectangle: fails on an unknown identifier,
    /// otherwise drops it, clears its cells, and publishes the removal.
    pub fn remove_item(&mut self, id: &str) -> (r: Result<(), GridError>)
        requires
            old(self).wf(),
        ensures
            final(self).wf(),
            final(self)@.rows == old(self)@.rows,
            final(self)@.cols == old(self)@.cols,
            ({
                let sp = spec_remove(old(self)@, id@);
                match r {
                    Ok(_) => {
                        &&& sp is Ok
                        &&& final(self)@.items == sp->Ok_0.0
                        &&& final(self).bus() == GridEngine::bus_after_batch(
                            old(self).bus(), old(self)@, sp->Ok_0.0, sp->Ok_0.1)
                    },
                    Err(e) => {
                        &&& sp is Err
                        &&& e.kind == sp->Err_0
                        &&& final(self)@ == old(self)@
                        &&& final(self).bus() == old(self).bus()
                    },
                }
            }),
    {
        let ghost m = self@;
        let ghost sp = spec_remove(m, id@);
        let id_s = String::from_str(id);
        proof {
            lemma_find_id(m.items, id@);
        }
        let k = find_node(&self.items, &id_s);
        if k >= self.items.len() {
            return Err(GridError::new(GridErrorKind::NotFound));
        }
        let node = self.items[k].duplicate();
        let mut changes: Vec<Change> = Vec::new();
        changes.push(Change::Remove(RemoveChangeData { value: node }));
        proof {
            assert(changes_view(changes@) =~= seq![
                ChangeModel::Remove { value: m.items[find_id(m.items, id@)] },
            ]);
            assert(changes_view(changes@) == sp->Ok_0.1);
            lemma_remove_ok(m, id@);
            assert(items_after(m.items, changes_view(changes@)) == sp->Ok_0.0);
        }
        self.commit_batch(changes);
        Ok(())
    }

    /// Applies an externally supplied batch verbatim, in order, without
    /// collision resolution. The batch is accepted exactly when the state it
    /// yields is well formed; otherwise nothing changes and the batch is
    /// reported malformed. On success one event carrying the batch is
    /// published.
    pub fn apply_changes(&mut self, changes: &Vec<Change>) -> (r: Result<(), GridError>)
        requires
            old(self).wf(),
        ensures
            final(self).wf(),
            final(self)@.rows == old(self)@.rows,
            final(self)@.cols == old(self)@.cols,
            ({
                let sim = items_after(old(self)@.items, changes_view(changes@));
                let accept = state_ok(
                    GridModel {
                        rows: old(self)@.rows,
                        cols: old(self)@.cols,
                        items: sim,
                    },
                );
                match r {
                    Ok(_) => {
                        &&& accept
                        &&& final(self)@.items == sim
                        &&& final(self).bus() == GridEngine::bus_after_batch(
                            old(self).bus(), old(self)@, sim, changes_view(changes@))
                    },
                    Err(e) => {
                        &&& !accept
                        &&& e.kind == GridErrorKind::Malformed
                        &&& final(self)@ == old(self)@
                        &&& final(self).bus() == old(self).bus()
                    },
                }
            }),
    {
        let ghost m = self@;
        let mut sim = clone_nodes(&self.items);
        apply_items(&mut sim, changes);
        if !check_bounds(&sim, self.rows, self.cols) {
            return Err(GridError::new(GridErrorKind::Malformed));
        }
        if !check_disjoint(&sim, self.rows, self.cols) {
            return Err(GridError::new(GridErrorKind::Malformed));
        }
        let batch = duplicate_changes(changes);
        proof {
            assert(changes_view(batch@) == changes_view(changes@));
        }
        self.commit_batch(batch);
        Ok(())
    }

    /// The stored rectangles, sorted by identifier.
    pub fn get_nodes(&self) -> (r: Vec<Node>)
        ensures
            nodes_view(r@) == self@.items,
    {
        clone_nodes(&self.items)
    }

    /// The identifier stored in the cell at column `x`, row `y`, or nothing:
    /// either because the cell is empty or because the position lies outside
    /// the grid.
    pub fn get_cell(&self, x: usize, y: usize) -> (r: Option<String>)
        requires
            self.wf(),
        ensures
            x < self@.cols && y < self@.rows ==> crate::cells::opt_id_view(r) == cell_owner(
                self@.items, x as int, y as int),
            !(x < self@.cols && y < self@.rows) ==> r is None,
    {
        if x < self.cols && y < self.rows {
            crate::cells::grid_get(&self.grid, y, x)
        } else {
            None
        }
    }

    /// The identifiers of the nodes other than the given one whose cells
    /// meet the node's rectangle when placed at `(x, y)`, in first-seen
    /// column-major order, without repetition.
    pub fn will_collides_with(&self, node: &Node, x: usize, y: usize) -> (r: Vec<String>)
        requires
            self.wf(),
            x + node@.w <= usize::MAX,
            y + node@.h <= usize::MAX,
        ensures
            ids_view(r@) == colliders(self@.items, node@.id, x as int, y as int, node@.w,
                node@.h),
    {
        colliders_exec(&self.items, &node.id, x, y, node.w, node.h)
    }

    /// Whether the event bus can still hand out a fresh listener handle.
    pub fn can_subscribe(&self) -> (r: bool)
        ensures
            r == (self.bus().next_id < u64::MAX),
    {
        self.events.has_free_handle()
    }

    /// Registers a listener for published batches and returns its handle.
    pub fn subscribe(&mut self) -> (id: u64)
        requires
            old(self).wf(),
            old(self).bus().next_id < u64::MAX,
        ensures
            final(self).wf(),
            final(self)@ == old(self)@,
            id as int == old(self).bus().next_id,
            final(self).bus().next_id == old(self).bus().next_id + 1,
            final(self).bus().subs == old(self).bus().subs.push(
                crate::engine_events::SubModel {
                    name: EventName::BatchChange,
                    id: id as int,
                    queue: Seq::empty(),
                },
            ),
    {
        self.events.add_listener(EventName::BatchChange)
    }

    /// Drops the listener with the given handle; unknown handles change
    /// nothing.
    pub fn unsubscribe(&mut self, id: u64)
        requires
            old(self).wf(),
        ensures
            final(self).wf(),
            final(self)@ == old(self)@,
            final(self).bus().subs == crate::engine_events::subs_without(
                old(self).bus().subs, EventName::BatchChange, id as int),
            final(self).bus().next_id == old(self).bus().next_id,
    {
        self.events.remove_listener(EventName::BatchChange, id)
    }

    /// Hands out and clears the events published to the given listener since
    /// it last asked.
    pub fn take_events(&mut self, id: u64) -> (r: Vec<EventValue>)
        requires
            old(self).wf(),
        ensures
            final(self).wf(),
            final(self)@ == old(self)@,
            final(self).bus().next_id == old(self).bus().next_id,
            ({
                let k = crate::engine_events::find_sub(old(self).bus().subs, id as int);
                if k < old(self).bus().subs.len() {
                    &&& final(self).bus().subs == old(self).bus().subs.update(
                        k,
                        crate::engine_events::SubModel {
                            name: old(self).bus().subs[k].name,
                            id: old(self).bus().subs[k].id,
                            queue: Seq::empty(),
                        },
                    )
                    &&& crate::engine_events::events_view(r@) == old(self).bus().subs[k].queue
                } else {
                    &&& final(self).bus().subs == old(self).bus().subs
                    &&& r@.len() == 0
                }
            }),
    {
        self.events.take_events(id)
    }

    /// A snapshot of this engine's state.
    pub fn get_grid_view(&self) -> (r: crate::grid_view::GridView)
        ensures
            r@ == self@,
    {
        crate::grid_view::GridView {
            rows: self.rows,
            cols: self.cols,
            items: clone_nodes(&self.items),
        }
    }

    /// The human-readable rendering of this engine's state.
    pub fn get_grid_formatted(&self) -> (r: String)
        ensures
            r@ == crate::grid_view::fmt_view(self@),
    {
        self.get_grid_view().get_grid_formatted()
    }

    /// The canonical text form of this engine's state.
    pub fn serialized_as_str(&self) -> (r: String)
        ensures
            r@ == crate::ser::ser_view(self@),
    {
        self.get_grid_view().serialized_as_str()
    }

    /// Prints the rendering of this engine's state.
    pub fn print_grid(&self) {
        self.get_grid_view().print_grid()
    }

    /// Rebuilds an engine from the canonical text form of a view: accepts
    /// exactly the serializations of well-formed views and reports anything
    /// else as malformed. The engine starts with a fresh event bus.
    pub fn from_str(serialized: &str) -> (r: Result<GridEngine, GridError>)
        ensures
            match r {
                Ok(e) => {
                    &&& crate::codec::p_view(serialized@) == Some(e@)
                    &&& e.wf()
                    &&& e.bus().subs.len() == 0
                    &&& e.bus().next_id == 0
                },
                Err(e) => {
                    &&& crate::codec::p_view(serialized@) is None
                    &&& e.kind == GridErrorKind::Malformed
                },
            },
    {
        let view = match crate::codec::parse_snapshot(serialized) {
            Err(e) => {
                return Err(e);
            },
            Ok(v) => v,
        };
        let rows = view.rows;
        let cols = view.cols;
        let items = view.items;
        let mut grid = crate::cells::grid_new(rows, cols);
        proof {
            if rows == 0 || cols == 0 {
            }
        }
        rebuild_grid(&mut grid, rows, cols, &items);
        let e = GridEngine {
            rows,
            cols,
            grid,
            items,
            events: EventListener::default(),
        };
        Ok(e)
    }
}

/// The cells of the rectangle at `(x, y)` of width `w`, height `h`, visited
/// column by column: for each column from left to right, its cells from top
/// to bottom.
pub fn for_cell(x: usize, y: usize, w: usize, h: usize) -> (r: Vec<(usize, usize)>)
    requires
        x + w <= usize::MAX,
        y + h <= usize::MAX,
        w * h <= usize::MAX,
    ensures
        r@.len() == w * h,
        forall|k: int| 0 <= k < w * h
            ==> (#[trigger] r@[k]).0 == x + k / (h as int) && r@[k].1 == y + k % (h as int),
{
    let mut r: Vec<(usize, usize)> = Vec::new();
    if h == 0 {
        return r;
    }
    let mut xi: usize = x;
    while xi < x + w
        invariant
            x <= xi <= x + w,
            x + w <= usize::MAX,
            y + h <= usize::MAX,
            1 <= h,
            w * h <= usize::MAX,
            r@.len() == (xi - x) * h,
            r@.len() <= w * h,
            forall|k: int| 0 <= k < r@.len()
                ==> (#[trigger] r@[k]).0 == x + k / (h as int) && r@[k].1 == y + k % (h as int),
        decreases x + w - xi,
    {
        let mut yi: usize = y;
        proof {
            assert((xi - x) * h + h <= w * h) by (nonlinear_arith)
                requires xi < x + w, 1 <= h, 0 <= x, xi - x + 1 <= w,
            {
            }
        }
        while yi < y + h
            invariant
                x <= xi < x + w,
                y <= yi <= y + h,
                x + w <= usize::MAX,
                y + h <= usize::MAX,
                1 <= h,
                w * h <= usize::MAX,
                (xi - x) * h + h <= w * h,
                r@.len() == (xi - x) * h + (yi - y),
                forall|k: int| 0 <= k < r@.len()
                    ==> (#[trigger] r@[k]).0 == x + k / (h as int)
                        && r@[k].1 == y + k % (h as int),
            decreases y + h - yi,
        {
            let ghost k = r@.len() as int;
            r.push((xi, yi));
            proof {
                assert(k == (xi - x) * (h as int) + (yi - y));
                vstd::arithmetic::div_mod::lemma_fundamental_div_mod_converse(
                    k, h as int, xi - x, yi - y);
                assert(r@[k].0 == x + k / (h as int));
                assert(r@[k].1 == y + k % (h as int));
            }
            yi = yi + 1;
        }
        proof {
            assert((xi + 1 - x) * h == (xi - x) * h + h) by (nonlinear_arith)
            {
            }
        }
        xi = xi + 1;
    }
    proof {
        assert((w as int) * (h as int) == ((x + w - x) as int) * (h as int));
    }
    r
}

} // verus!
