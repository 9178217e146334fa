//! The protocol codec: the snapshot and change-batch messages as canonical
//! text, with a parser that accepts exactly the serializations of well-formed
//! values and reports anything else as malformed.

use vstd::prelude::*;
use crate::error::GridError;
use crate::error::GridErrorKind;
use crate::grid_engine::AddChangeData;
use crate::grid_engine::BatchChangeValue;
use crate::grid_engine::Change;
use crate::grid_engine::MoveChangeData;
use crate::grid_engine::Node;
use crate::grid_engine::RemoveChangeData;
use crate::grid_engine::changes_view;
use crate::grid_engine::nodes_view;
use crate::model::BatchModel;
use crate::model::ChangeModel;
use crate::model::GridModel;
use crate::model::NodeModel;
use crate::model::state_ok;
use crate::ser::nl;
use crate::ser::ser_cells;
use crate::ser::ser_id;
use crate::ser::ser_node;
use crate::ser::sp;
use crate::text::dec_str;

verus! {

/// Whether a character is a decimal digit.
pub open spec fn is_digit(c: char) -> bool {
    48 <= c as u32 && c as u32 <= 57
}

/// The value of a decimal digit.
pub open spec fn digit_val(c: char) -> int {
    c as u32 - 48
}

/// Folds a run of digits from position `i` into an accumulator, returning
/// the folded value and the position after the run.
pub open spec fn p_digits(s: Seq<char>, i: int, acc: int) -> (int, int)
    decreases s.len() - i,
        when 0 <= i <= s.len()
{
    if i < s.len() && is_digit(s[i]) {
        p_digits(s, i + 1, acc * 10 + digit_val(s[i]))
    } else {
        (acc, i)
    }
}

/// Parses a decimal number: at least one digit, no leading zero, and a value
/// that fits the machine.
pub open spec fn p_dec(s: Seq<char>, i: int) -> Option<(int, int)> {
    if !(0 <= i < s.len() && is_digit(s[i])) {
        None
    } else if s[i] == '0' && i + 1 < s.len() && is_digit(s[i + 1]) {
        None
    } else {
        let r = p_digits(s, i, 0);
        if r.0 <= usize::MAX {
            Some(r)
        } else {
            None
        }
    }
}

/// Expects one exact character.
pub open spec fn p_char(s: Seq<char>, i: int, c: char) -> Option<int> {
    if 0 <= i < s.len() && s[i] == c {
        Some(i + 1)
    } else {
        None
    }
}

/// Parses a length-prefixed identifier.
pub open spec fn p_id(s: Seq<char>, i: int) -> Option<(Seq<char>, int)> {
    match p_dec(s, i) {
        None => None,
        Some((len, j)) => match p_char(s, j, ' ') {
            None => None,
            Some(j2) => if j2 + len <= s.len() {
                Some((s.subrange(j2, j2 + len), j2 + len))
            } else {
                None
            },
        },
    }
}

/// Parses one item line.
pub open spec fn p_node(s: Seq<char>, i: int) -> Option<(NodeModel, int)> {
    match p_id(s, i) {
        None => None,
        Some((id, j0)) => match p_char(s, j0, ' ') {
            None => None,
            Some(j1) => match p_dec(s, j1) {
                None => None,
                Some((x, j2)) => match p_char(s, j2, ' ') {
                    None => None,
                    Some(j3) => match p_dec(s, j3) {
                        None => None,
                        Some((y, j4)) => match p_char(s, j4, ' ') {
                            None => None,
                            Some(j5) => match p_dec(s, j5) {
                                None => None,
                                Some((w, j6)) => match p_char(s, j6, ' ') {
                                    None => None,
                                    Some(j7) => match p_dec(s, j7) {
                                        None => None,
                                        Some((h, j8)) => match p_char(s, j8, '\n') {
                                            None => None,
                                            Some(j9) => Some(
                                                (NodeModel { id, x, y, w, h }, j9),
                                            ),
                                        },
                                    },
                                },
                            },
                        },
                    },
                },
            },
        },
    }
}

/// Parses `n` item lines.
pub open spec fn p_nodes(s: Seq<char>, i: int, n: int) -> Option<(Seq<NodeModel>, int)>
    decreases n,
        when 0 <= n
{
    if n == 0 {
        Some((Seq::empty(), i))
    } else {
        match p_node(s, i) {
            None => None,
            Some((nd, j)) => match p_nodes(s, j, n - 1) {
                None => None,
                Some(r) => Some((seq![nd] + r.0, r.1)),
            },
        }
    }
}

/// What a view must satisfy to cross the wire: a well-formed state with
/// machine-sized, normalized dimensions.
pub open spec fn view_wf(m: GridModel) -> bool {
    &&& state_ok(m)
    &&& 0 <= m.rows
    &&& 0 <= m.cols
    &&& m.rows * m.cols <= usize::MAX
    &&& m.rows <= usize::MAX
    &&& m.cols <= usize::MAX
    &&& m.items.len() <= usize::MAX
    &&& (m.rows == 0 ==> m.cols == 0)
    &&& (m.cols == 0 ==> m.rows == 0)
}

/// Parses a whole snapshot: the header, the item lines, and a cells section
/// that must spell out exactly the cells the items cover. Anything else is
/// rejected.
pub open spec fn p_view(s: Seq<char>) -> Option<GridModel> {
    match p_char(s, 0, 'G') {
        None => None,
        Some(i0) => match p_char(s, i0, 'V') {
            None => None,
            Some(i1) => match p_char(s, i1, ' ') {
                None => None,
                Some(i2) => match p_dec(s, i2) {
                    None => None,
                    Some((rows, i3)) => match p_char(s, i3, ' ') {
                        None => None,
                        Some(i4) => match p_dec(s, i4) {
                            None => None,
                            Some((cols, i5)) => match p_char(s, i5, ' ') {
                                None => None,
                                Some(i6) => match p_dec(s, i6) {
                                    None => None,
                                    Some((n, i7)) => match p_char(s, i7, '\n') {
                                        None => None,
                                        Some(i8) => match p_nodes(s, i8, n) {
                                            None => None,
                                            Some((items, i9)) => {
                                                let m = GridModel { rows, cols, items };
                                                if view_wf(m) && s.skip(i9) == ser_cells(
                                                    items,
                                                    rows,
                                                    cols,
                                                    0,
                                                    0,
                                                ) {
                                                    Some(m)
                                                } else {
                                                    None
                                                }
                                            },
                                        },
                                    },
                                },
                            },
                        },
                    },
                },
            },
        },
    }
}

/// One serialized change: its tag and its node lines.
pub open spec fn ser_change(c: ChangeModel) -> Seq<char> {
    match c {
        ChangeModel::Add { value } => seq!['A'] + sp() + ser_node(value),
        ChangeModel::Remove { value } => seq!['R'] + sp() + ser_node(value),
        ChangeModel::Move { old_value, new_value } => seq!['M'] + sp() + ser_node(old_value)
            + ser_node(new_value),
    }
}

/// The serialized changes from position `i` on.
pub open spec fn ser_changes(cs: Seq<ChangeModel>, i: int) -> Seq<char>
    decreases cs.len() - i,
{
    if i >= cs.len() {
        Seq::empty()
    } else {
        ser_change(cs[i]) + ser_changes(cs, i + 1)
    }
}

/// A serialized change batch: the tag, the change count, the two bracketing
/// hashes, and the changes.
pub open spec fn ser_batch(b: BatchModel) -> Seq<char> {
    seq!['C', 'B'] + sp() + crate::text::dec_str(b.changes.len() as int) + nl() + ser_id(
        b.hash_before,
    ) + nl() + ser_id(b.hash_after) + nl() + ser_changes(b.changes, 0)
}

/// Parses one change.
pub open spec fn p_change(s: Seq<char>, i: int) -> Option<(ChangeModel, int)> {
    if !(0 <= i < s.len()) {
        None
    } else if s[i] == 'A' || s[i] == 'R' {
        match p_char(s, i + 1, ' ') {
            None => None,
            Some(j) => match p_node(s, j) {
                None => None,
                Some((nd, k)) => if s[i] == 'A' {
                    Some((ChangeModel::Add { value: nd }, k))
                } else {
                    Some((ChangeModel::Remove { value: nd }, k))
                },
            },
        }
    } else if s[i] == 'M' {
        match p_char(s, i + 1, ' ') {
            None => None,
            Some(j) => match p_node(s, j) {
                None => None,
                Some((o, k)) => match p_node(s, k) {
                    None => None,
                    Some((nn, k2)) => Some(
                        (ChangeModel::Move { old_value: o, new_value: nn }, k2),
                    ),
                },
            },
        }
    } else {
        None
    }
}

/// Parses `n` changes.
pub open spec fn p_changes(s: Seq<char>, i: int, n: int) -> Option<(Seq<ChangeModel>, int)>
    decreases n,
        when 0 <= n
{
    if n == 0 {
        Some((Seq::empty(), i))
    } else {
        match p_change(s, i) {
            None => None,
            Some((c, j)) => match p_changes(s, j, n - 1) {
                None => None,
                Some(r) => Some((seq![c] + r.0, r.1)),
            },
        }
    }
}

/// Parses a whole change batch; the input must end with the last change.
pub open spec fn p_batch(s: Seq<char>) -> Option<BatchModel> {
    match p_char(s, 0, 'C') {
        None => None,
        Some(i0) => match p_char(s, i0, 'B') {
            None => None,
            Some(i1) => match p_char(s, i1, ' ') {
                None => None,
                Some(i2) => match p_dec(s, i2) {
                    None => None,
                    Some((n, i3)) => match p_char(s, i3, '\n') {
                        None => None,
                        Some(i4) => match p_id(s, i4) {
                            None => None,
                            Some((hb, i5)) => match p_char(s, i5, '\n') {
                                None => None,
                                Some(i6) => match p_id(s, i6) {
                                    None => None,
                                    Some((ha, i7)) => match p_char(s, i7, '\n') {
                                        None => None,
                                        Some(i8) => match p_changes(s, i8, n) {
                                            None => None,
                                            Some((cs, i9)) => if i9 == s.len() {
                                                Some(
                                                    BatchModel {
                                                        changes: cs,
                                                        hash_before: hb,
                                                        hash_after: ha,
                                                    },
                                                )
                                            } else {
                                                None
                                            },
                                        },
                                    },
                                },
                            },
                        },
                    },
                },
            },
        },
    }
}


proof fn lemma_p_digits_ge(s: Seq<char>, i: int, acc: int)
    requires
        0 <= i <= s.len(),
        0 <= acc,
    ensures
        p_digits(s, i, acc).0 >= acc,
        p_digits(s, i, acc).1 >= i,
    decreases s.len() - i,
{
    if i < s.len() && is_digit(s[i]) {
        assert(acc * 10 + digit_val(s[i]) >= acc) by (nonlinear_arith)
            requires 0 <= acc, 0 <= digit_val(s[i]),
        {
        }
        lemma_p_digits_ge(s, i + 1, acc * 10 + digit_val(s[i]));
    }
}

/// Parses a decimal number at position `i`.
fn e_dec(s: &str, n: usize, i: usize) -> (r: Option<(usize, usize)>)
    requires
        n == s@.len(),
        i <= n,
    ensures
        match r {
            Some(v) => p_dec(s@, i as int) == Some((v.0 as int, v.1 as int)) && v.1 <= n,
            None => p_dec(s@, i as int) is None,
        },
{
    if i >= n {
        return None;
    }
    let c0 = s.get_char(i);
    let u0 = c0 as u32;
    if !(48 <= u0 && u0 <= 57) {
        return None;
    }
    if c0 == '0' {
        if i + 1 < n {
            let c1 = s.get_char(i + 1);
            let u1 = c1 as u32;
            if 48 <= u1 && u1 <= 57 {
                return None;
            }
        }
        proof {
            assert('0' as u32 == 48);
            assert(digit_val(s@[i as int]) == 0);
            assert(p_digits(s@, i + 1, 0) == (0int, i + 1));
            assert(p_digits(s@, i as int, 0) == (0int, i + 1));
        }
        return Some((0, i + 1));
    }
    let mut acc: usize = 0;
    let mut j: usize = i;
    while j < n
        invariant
            i <= j <= n,
            n == s@.len(),
            acc <= usize::MAX,
            is_digit(s@[i as int]),
            !(s@[i as int] == '0' && i + 1 < s@.len() && is_digit(s@[i + 1])),
            p_digits(s@, i as int, 0) == p_digits(s@, j as int, acc as int),
        decreases n - j,
    {
        let c = s.get_char(j);
        let u = c as u32;
        if !(48 <= u && u <= 57) {
            proof {
                assert(p_digits(s@, j as int, acc as int) == (acc as int, j as int));
                assert(p_digits(s@, i as int, 0) == (acc as int, j as int));
                assert(is_digit(s@[i as int]));
                assert(p_dec(s@, i as int) == Some((acc as int, j as int)));
            }
            return Some((acc, j));
        }
        let d = (u - 48) as usize;
        assert(d as int == digit_val(s@[j as int]));
        if acc > (usize::MAX - d) / 10 {
            proof {
                assert(acc as int * 10 + d as int > usize::MAX) by (nonlinear_arith)
                    requires
                        acc as int > (usize::MAX as int - d as int) / 10,
                        0 <= d as int <= 9,
                {
                }
                lemma_p_digits_ge(s@, j + 1, acc as int * 10 + d as int);
                assert(p_digits(s@, j as int, acc as int)
                    == p_digits(s@, j + 1, acc as int * 10 + d as int));
                assert(p_digits(s@, i as int, 0).0 > usize::MAX);
            }
            return None;
        }
        proof {
            assert(acc as int * 10 + d as int <= usize::MAX) by (nonlinear_arith)
                requires
                    acc as int <= (usize::MAX as int - d as int) / 10,
                    0 <= acc as int,
                    0 <= d as int <= 9,
            {
            }
        }
        acc = acc * 10 + d;
        j = j + 1;
    }
    proof {
        assert(p_digits(s@, j as int, acc as int) == (acc as int, j as int));
        assert(p_dec(s@, i as int) == Some((acc as int, j as int)));
    }
    Some((acc, j))
}

/// Expects one exact character at position `i`.
fn e_char(s: &str, n: usize, i: usize, c: char) -> (r: Option<usize>)
    requires
        n == s@.len(),
        i <= n,
    ensures
        match r {
            Some(j) => p_char(s@, i as int, c) == Some(j as int) && j <= n,
            None => p_char(s@, i as int, c) is None,
        },
{
    if i < n && s.get_char(i) == c {
        Some(i + 1)
    } else {
        None
    }
}

/// Parses a length-prefixed identifier at position `i`.
fn e_id(s: &str, n: usize, i: usize) -> (r: Option<(String, usize)>)
    requires
        n == s@.len(),
        i <= n,
    ensures
        match r {
            Some(v) => {
                &&& p_id(s@, i as int) is Some
                &&& p_id(s@, i as int)->Some_0.0 == v.0@
                &&& p_id(s@, i as int)->Some_0.1 == v.1 as int
                &&& v.1 <= n
            },
            None => p_id(s@, i as int) is None,
        },
{
    let len_j = e_dec(s, n, i);
    match len_j {
        None => None,
        Some((len, j)) => {
            let j2 = e_char(s, n, j, ' ');
            match j2 {
                None => None,
                Some(j2) => {
                    if len <= n - j2 {
                        let id = s.substring_char(j2, j2 + len).to_owned();
                        Some((id, j2 + len))
                    } else {
                        None
                    }
                },
            }
        },
    }
}

/// Parses one item line at position `i`.
fn e_node(s: &str, n: usize, i: usize) -> (r: Option<(Node, usize)>)
    requires
        n == s@.len(),
        i <= n,
    ensures
        match r {
            Some(v) => {
                &&& p_node(s@, i as int) is Some
                &&& p_node(s@, i as int)->Some_0.0 == v.0@
                &&& p_node(s@, i as int)->Some_0.1 == v.1 as int
                &&& v.1 <= n
            },
            None => p_node(s@, i as int) is None,
        },
{
    let id_j = e_id(s, n, i);
    match id_j {
        None => None,
        Some((id, j0)) => match e_char(s, n, j0, ' ') {
            None => None,
            Some(j1) => match e_dec(s, n, j1) {
                None => None,
                Some((x, j2)) => match e_char(s, n, j2, ' ') {
                    None => None,
                    Some(j3) => match e_dec(s, n, j3) {
                        None => None,
                        Some((y, j4)) => match e_char(s, n, j4, ' ') {
                            None => None,
                            Some(j5) => match e_dec(s, n, j5) {
                                None => None,
                                Some((w, j6)) => match e_char(s, n, j6, ' ') {
                                    None => None,
                                    Some(j7) => match e_dec(s, n, j7) {
                                        None => None,
                                        Some((h, j8)) => match e_char(s, n, j8, '\n') {
                                            None => None,
                                            Some(j9) => Some(
                                                (Node { id, x, y, w, h }, j9),
                                            ),
                                        },
                                    },
                                },
                            },
                        },
                    },
                },
            },
        },
    }
}

/// Parses `count` item lines at position `i`.
fn e_nodes(s: &str, n: usize, i: usize, count: usize) -> (r: Option<(Vec<Node>, usize)>)
    requires
        n == s@.len(),
        i <= n,
    ensures
        match r {
            Some(v) => {
                &&& p_nodes(s@, i as int, count as int) is Some
                &&& p_nodes(s@, i as int, count as int)->Some_0.0 == nodes_view(v.0@)
                &&& p_nodes(s@, i as int, count as int)->Some_0.1 == v.1 as int
                &&& v.1 <= n
                &&& v.0@.len() == count
            },
            None => p_nodes(s@, i as int, count as int) is None,
        },
    decreases count,
{
    if count == 0 {
        let r: Vec<Node> = Vec::new();
        proof {
            assert(nodes_view(r@) =~= Seq::<NodeModel>::empty());
        }
        return Some((r, i));
    }
    match e_node(s, n, i) {
        None => None,
        Some((nd, j)) => match e_nodes(s, n, j, count - 1) {
            None => None,
            Some((mut rest, k)) => {
                let ghost rest_view = nodes_view(rest@);
                rest.insert(0, nd);
                proof {
                    assert(nodes_view(rest@) =~= seq![nd@] + rest_view);
                }
                Some((rest, k))
            },
        },
    }
}


/// Parses a snapshot message into a grid view. Succeeds exactly on the
/// canonical serialization of a well-formed view; anything else is
/// malformed.
#[verifier::rlimit(100)]
pub fn parse_snapshot(s: &str) -> (r: Result<crate::grid_view::GridView, GridError>)
    ensures
        match r {
            Ok(v) => p_view(s@) == Some(v@),
            Err(e) => p_view(s@) is None && e.kind == GridErrorKind::Malformed,
        },
{
    let malformed = GridError::new(GridErrorKind::Malformed);
    let n = s.unicode_len();
    let i0 = match e_char(s, n, 0, 'G') {
        None => {
            return Err(malformed);
        },
        Some(j) => j,
    };
    let i1 = match e_char(s, n, i0, 'V') {
        None => {
            return Err(malformed);
        },
        Some(j) => j,
    };
    let i2 = match e_char(s, n, i1, ' ') {
        None => {
            return Err(malformed);
        },
        Some(j) => j,
    };
    let (rows, i3) = match e_dec(s, n, i2) {
        None => {
            return Err(malformed);
        },
        Some(v) => v,
    };
    let i4 = match e_char(s, n, i3, ' ') {
        None => {
            return Err(malformed);
        },
        Some(j) => j,
    };
    let (cols, i5) = match e_dec(s, n, i4) {
        None => {
            return Err(malformed);
        },
        Some(v) => v,
    };
    let i6 = match e_char(s, n, i5, ' ') {
        None => {
            return Err(malformed);
        },
        Some(j) => j,
    };
    let (count, i7) = match e_dec(s, n, i6) {
        None => {
            return Err(malformed);
        },
        Some(v) => v,
    };
    let i8 = match e_char(s, n, i7, '\n') {
        None => {
            return Err(malformed);
        },
        Some(j) => j,
    };
    let (items, i9) = match e_nodes(s, n, i8, count) {
        None => {
            return Err(malformed);
        },
        Some(v) => v,
    };
    let ghost m = GridModel {
        rows: rows as int,
        cols: cols as int,
        items: nodes_view(items@),
    };
    // the dimensions must be normalized and fit the machine
    if (rows == 0) != (cols == 0) {
        return Err(malformed);
    }
    if rows != 0 && cols > usize::MAX / rows {
        proof {
            assert(m.rows * m.cols > usize::MAX) by (nonlinear_arith)
                requires
                    m.rows == rows as int,
                    m.cols == cols as int,
                    rows as int >= 1,
                    cols as int > usize::MAX as int / (rows as int),
            {
            }
        }
        return Err(malformed);
    }
    proof {
        if rows != 0 {
            assert(m.rows * m.cols <= usize::MAX) by (nonlinear_arith)
                requires
                    m.rows == rows as int,
                    m.cols == cols as int,
                    rows as int >= 1,
                    cols as int <= usize::MAX as int / (rows as int),
            {
            }
        }
    }
    // the state must be well formed
    let mut si: usize = 0;
    while si < items.len()
        invariant
            si <= items@.len(),
            m.items == nodes_view(items@),
            m.items.len() == items@.len(),
            malformed.kind == GridErrorKind::Malformed,
            p_view(s@) == (if view_wf(m) && s@.skip(i9 as int) == ser_cells(m.items, m.rows,
                m.cols, 0, 0) { Some(m) } else { None::<GridModel> }),
            forall|p: int| 0 <= p < si && p + 1 < m.items.len()
                ==> crate::text::lex_lt((#[trigger] m.items[p]).id, m.items[p + 1].id),
        decreases items@.len() - si,
    {
        if si + 1 < items.len() {
            if !crate::text::str_lt(items[si].id.as_str(), items[si + 1].id.as_str()) {
                proof {
                    assert(!crate::model::sorted_by_id(m.items)) by {
                        if crate::model::sorted_by_id(m.items) {
                            assert(crate::text::lex_lt(m.items[si as int].id,
                                m.items[si as int + 1].id));
                        }
                    }
                    assert(!view_wf(m));
                    assert(p_view(s@) is None);
                }
                return Err(malformed);
            }
        }
        si = si + 1;
    }
    proof {
        crate::model::lemma_sorted_from_adjacent(m.items);
    }
    if !crate::grid_engine::check_bounds(&items, rows, cols) {
        return Err(malformed);
    }
    if !crate::grid_engine::check_disjoint(&items, rows, cols) {
        return Err(malformed);
    }
    // the cells section must spell out exactly what the items cover
    let mut expected = String::new();
    crate::ser::push_cells(&mut expected, rows, cols, &items);
    let rest = s.substring_char(i9, n).to_owned();
    if !(rest == expected) {
        proof {
            assert(s@.skip(i9 as int) =~= s@.subrange(i9 as int, n as int));
        }
        return Err(malformed);
    }
    proof {
        assert(s@.skip(i9 as int) =~= s@.subrange(i9 as int, n as int));
        assert(s@.skip(i9 as int) == ser_cells(m.items, m.rows, m.cols, 0, 0));
        assert(p_view(s@) == Some(m));
    }
    Ok(crate::grid_view::GridView::from_parts(rows, cols, items))
}


/// Appends one serialized change.
fn push_change(s: &mut String, c: &Change)
    ensures
        final(s)@ == old(s)@ + ser_change(c@),
{
    proof {
        reveal_strlit("A ");
        reveal_strlit("R ");
        reveal_strlit("M ");
    }
    match c {
        Change::Add(d) => {
            s.append("A ");
            proof {
                assert("A "@ =~= seq!['A'] + sp());
            }
            crate::ser::push_node(s, &d.value);
        },
        Change::Remove(d) => {
            s.append("R ");
            proof {
                assert("R "@ =~= seq!['R'] + sp());
            }
            crate::ser::push_node(s, &d.value);
        },
        Change::Move(d) => {
            s.append("M ");
            proof {
                assert("M "@ =~= seq!['M'] + sp());
            }
            crate::ser::push_node(s, &d.old_value);
            crate::ser::push_node(s, &d.new_value);
        },
    }
    proof {
        assert(s@ =~= old(s)@ + ser_change(c@));
    }
}

/// The canonical text form of a change batch.
pub fn encode_batch(b: &BatchChangeValue) -> (r: String)
    ensures
        r@ == ser_batch(b@),
{
    let ghost bm = b@;
    let mut s = String::new();
    proof {
        reveal_strlit("CB ");
    }
    s.append("CB ");
    proof {
        assert("CB "@ =~= seq!['C', 'B'] + sp());
    }
    crate::text::push_dec(&mut s, b.changes.len() as u64);
    crate::ser::push_nl(&mut s);
    crate::ser::push_id(&mut s, &b.hash_before);
    crate::ser::push_nl(&mut s);
    crate::ser::push_id(&mut s, &b.hash_after);
    crate::ser::push_nl(&mut s);
    let ghost after_header = s@;
    let mut i: usize = 0;
    while i < b.changes.len()
        invariant
            i <= b.changes@.len(),
            bm == b@,
            bm.changes.len() == b.changes@.len(),
            after_header + ser_changes(bm.changes, 0) == s@ + ser_changes(bm.changes, i as int),
        decreases b.changes@.len() - i,
    {
        push_change(&mut s, &b.changes[i]);
        proof {
            assert(bm.changes[i as int] == b.changes@[i as int]@);
            assert(ser_changes(bm.changes, i as int)
                =~= ser_change(bm.changes[i as int]) + ser_changes(bm.changes, i + 1));
            assert(after_header + ser_changes(bm.changes, 0)
                =~= s@ + ser_changes(bm.changes, i + 1));
        }
        i = i + 1;
    }
    proof {
        assert(ser_changes(bm.changes, bm.changes.len() as int) =~= Seq::<char>::empty());
        assert(s@ =~= after_header + ser_changes(bm.changes, 0));
        assert(s@ =~= ser_batch(bm));
    }
    s
}

/// Parses one change at position `i`.
fn e_change(s: &str, n: usize, i: usize) -> (r: Option<(Change, usize)>)
    requires
        n == s@.len(),
        i <= n,
    ensures
        match r {
            Some(v) => {
                &&& p_change(s@, i as int) is Some
                &&& p_change(s@, i as int)->Some_0.0 == v.0@
                &&& p_change(s@, i as int)->Some_0.1 == v.1 as int
                &&& v.1 <= n
            },
            None => p_change(s@, i as int) is None,
        },
{
    if i >= n {
        return None;
    }
    let t = s.get_char(i);
    if t == 'A' || t == 'R' {
        match e_char(s, n, i + 1, ' ') {
            None => None,
            Some(j) => match e_node(s, n, j) {
                None => None,
                Some((nd, k)) => {
                    if t == 'A' {
                        Some((Change::Add(AddChangeData { value: nd }), k))
                    } else {
                        Some((Change::Remove(RemoveChangeData { value: nd }), k))
                    }
                },
            },
        }
    } else if t == 'M' {
        match e_char(s, n, i + 1, ' ') {
            None => None,
            Some(j) => match e_node(s, n, j) {
                None => None,
                Some((o, k)) => match e_node(s, n, k) {
                    None => None,
                    Some((nn, k2)) => Some(
                        (Change::Move(MoveChangeData { old_value: o, new_value: nn }), k2),
                    ),
                },
            },
        }
    } else {
        None
    }
}

/// Parses `count` changes at position `i`.
fn e_changes(s: &str, n: usize, i: usize, count: usize) -> (r: Option<(Vec<Change>, usize)>)
    requires
        n == s@.len(),
        i <= n,
    ensures
        match r {
            Some(v) => {
                &&& p_changes(s@, i as int, count as int) is Some
                &&& p_changes(s@, i as int, count as int)->Some_0.0 == changes_view(v.0@)
                &&& p_changes(s@, i as int, count as int)->Some_0.1 == v.1 as int
                &&& v.1 <= n
            },
            None => p_changes(s@, i as int, count as int) is None,
        },
    decreases count,
{
    if count == 0 {
        let r: Vec<Change> = Vec::new();
        proof {
            assert(changes_view(r@) =~= Seq::<ChangeModel>::empty());
        }
        return Some((r, i));
    }
    match e_change(s, n, i) {
        None => None,
        Some((c, j)) => match e_changes(s, n, j, count - 1) {
            None => None,
            Some((mut rest, k)) => {
                let ghost rest_view = changes_view(rest@);
                rest.insert(0, c);
                proof {
                    assert(changes_view(rest@) =~= seq![c@] + rest_view);
                }
                Some((rest, k))
            },
        },
    }
}

/// Parses a change-batch message. Succeeds exactly on a whole, well-formed
/// batch encoding; anything else is malformed.
pub fn parse_batch(s: &str) -> (r: Result<BatchChangeValue, GridError>)
    ensures
        match r {
            Ok(v) => p_batch(s@) == Some(v@),
            Err(e) => p_batch(s@) is None && e.kind == GridErrorKind::Malformed,
        },
{
    let malformed = GridError::new(GridErrorKind::Malformed);
    let n = s.unicode_len();
    let i0 = match e_char(s, n, 0, 'C') {
        None => {
            return Err(malformed);
        },
        Some(j) => j,
    };
    let i1 = match e_char(s, n, i0, 'B') {
        None => {
            return Err(malformed);
        },
        Some(j) => j,
    };
    let i2 = match e_char(s, n, i1, ' ') {
        None => {
            return Err(malformed);
        },
        Some(j) => j,
    };
    let (count, i3) = match e_dec(s, n, i2) {
        None => {
            return Err(malformed);
        },
        Some(v) => v,
    };
    let i4 = match e_char(s, n, i3, '\n') {
        None => {
            return Err(malformed);
        },
        Some(j) => j,
    };
    let (hb, i5) = match e_id(s, n, i4) {
        None => {
            return Err(malformed);
        },
        Some(v) => v,
    };
    let i6 = match e_char(s, n, i5, '\n') {
        None => {
            return Err(malformed);
        },
        Some(j) => j,
    };
    let (ha, i7) = match e_id(s, n, i6) {
        None => {
            return Err(malformed);
        },
        Some(v) => v,
    };
    let i8 = match e_char(s, n, i7, '\n') {
        None => {
            return Err(malformed);
        },
        Some(j) => j,
    };
    let (cs, i9) = match e_changes(s, n, i8, count) {
        None => {
            return Err(malformed);
        },
        Some(v) => v,
    };
    if i9 != n {
        return Err(malformed);
    }
    Ok(BatchChangeValue { changes: cs, hash_before: hb, hash_after: ha })
}


/// Powers of ten.
pub open spec fn pow10(k: int) -> int
    decreases k,
        when k >= 0
{
    if k <= 0 {
        1
    } else {
        10 * pow10(k - 1)
    }
}

proof fn lemma_dec_str_digits(n: int)
    requires
        0 <= n,
    ensures
        dec_str(n).len() >= 1,
        forall|i: int| 0 <= i < dec_str(n).len() ==> is_digit(#[trigger] dec_str(n)[i]),
        forall|i: int| 0 <= i < dec_str(n).len()
            ==> digit_val(#[trigger] dec_str(n)[i]) == digit_val(dec_str(n)[i]),
        n >= 1 ==> dec_str(n)[0] != '0',
        n == 0 ==> dec_str(n) =~= seq!['0'],
    decreases n,
{
    assert(is_digit(crate::text::digit_char(0)) && digit_val(crate::text::digit_char(0)) == 0);
    assert(is_digit(crate::text::digit_char(1)) && digit_val(crate::text::digit_char(1)) == 1);
    assert(is_digit(crate::text::digit_char(2)) && digit_val(crate::text::digit_char(2)) == 2);
    assert(is_digit(crate::text::digit_char(3)) && digit_val(crate::text::digit_char(3)) == 3);
    assert(is_digit(crate::text::digit_char(4)) && digit_val(crate::text::digit_char(4)) == 4);
    assert(is_digit(crate::text::digit_char(5)) && digit_val(crate::text::digit_char(5)) == 5);
    assert(is_digit(crate::text::digit_char(6)) && digit_val(crate::text::digit_char(6)) == 6);
    assert(is_digit(crate::text::digit_char(7)) && digit_val(crate::text::digit_char(7)) == 7);
    assert(is_digit(crate::text::digit_char(8)) && digit_val(crate::text::digit_char(8)) == 8);
    assert(is_digit(crate::text::digit_char(9)) && digit_val(crate::text::digit_char(9)) == 9);
    if n < 10 {
        assert(dec_str(n) =~= seq![crate::text::digit_char(n)]);
        if n >= 1 {
            assert(dec_str(n)[0] != '0');
        }
    } else {
        lemma_dec_str_digits(n / 10);
        assert(dec_str(n) =~= dec_str(n / 10) + seq![crate::text::digit_char(n % 10)]);
        assert(dec_str(n)[0] == dec_str(n / 10)[0]);
    }
}

proof fn lemma_digit_char_val(n: int)
    requires
        0 <= n <= 9,
    ensures
        is_digit(crate::text::digit_char(n)),
        digit_val(crate::text::digit_char(n)) == n,
{
}

proof fn lemma_p_digits_block(s: Seq<char>, i: int, v: int, a: int)
    requires
        0 <= v,
        0 <= a,
        0 <= i,
        i + dec_str(v).len() <= s.len(),
        s.subrange(i, i + dec_str(v).len() as int) == dec_str(v),
    ensures
        p_digits(s, i, a) == p_digits(
            s,
            i + dec_str(v).len() as int,
            a * pow10(dec_str(v).len() as int) + v,
        ),
    decreases v,
{
    lemma_dec_str_digits(v);
    let block = dec_str(v);
    let bl = block.len() as int;
    if v < 10 {
        assert(block =~= seq![crate::text::digit_char(v)]);
        lemma_digit_char_val(v);
        assert(s[i] == block[0]);
        assert(is_digit(s[i]));
        assert(digit_val(s[i]) == v);
        assert(p_digits(s, i, a) == p_digits(s, i + 1, a * 10 + v));
        assert(pow10(1) == 10 * pow10(0));
    } else {
        let q = v / 10;
        let d = v % 10;
        lemma_dec_str_digits(q);
        let qb = dec_str(q);
        let ql = qb.len() as int;
        assert(block =~= qb + seq![crate::text::digit_char(d)]);
        assert(bl == ql + 1);
        assert(s.subrange(i, i + ql) =~= qb) by {
            assert(forall|p: int| 0 <= p < ql
                ==> #[trigger] s.subrange(i, i + ql)[p] == s.subrange(i, i + bl)[p]);
        }
        lemma_p_digits_block(s, i, q, a);
        let mid = a * pow10(ql) + q;
        assert(p_digits(s, i, a) == p_digits(s, i + ql, mid));
        assert(s[i + ql] == block[ql]);
        assert(block[ql] == crate::text::digit_char(d));
        lemma_digit_char_val(d);
        assert(is_digit(s[i + ql]));
        assert(digit_val(s[i + ql]) == d);
        assert(pow10(ql) >= 1) by {
            lemma_pow10_pos(ql);
        }
        assert(mid >= 0) by (nonlinear_arith)
            requires a >= 0, q >= 0, pow10(ql) >= 1, mid == a * pow10(ql) + q,
        {
        }
        assert(p_digits(s, i + ql, mid) == p_digits(s, i + ql + 1, mid * 10 + d));
        assert(mid * 10 + d == a * pow10(bl) + v) by (nonlinear_arith)
            requires
                mid == a * pow10(ql) + q,
                v == 10 * q + d,
                pow10(bl) == 10 * pow10(ql),
                bl == ql + 1,
        {
        }
        assert(pow10(bl) == 10 * pow10(ql));
    }
}

proof fn lemma_pow10_pos(k: int)
    requires
        0 <= k,
    ensures
        pow10(k) >= 1,
    decreases k,
{
    if k > 0 {
        lemma_pow10_pos(k - 1);
    }
}

/// Parsing a number at its own rendering recovers it, provided what follows
/// is not a digit.
proof fn lemma_p_dec_of(s: Seq<char>, i: int, v: int)
    requires
        0 <= v <= usize::MAX,
        0 <= i,
        i + dec_str(v).len() <= s.len(),
        s.subrange(i, i + dec_str(v).len() as int) == dec_str(v),
        i + dec_str(v).len() == s.len() || !is_digit(s[i + dec_str(v).len()]),
    ensures
        p_dec(s, i) == Some((v, i + dec_str(v).len() as int)),
{
    lemma_dec_str_digits(v);
    let bl = dec_str(v).len() as int;
    assert(s[i] == dec_str(v)[0]);
    assert(is_digit(s[i]));
    if s[i] == '0' {
        assert(v == 0);
        assert(bl == 1);
    }
    lemma_p_digits_block(s, i, v, 0);
    assert(pow10(bl) >= 1) by {
        lemma_pow10_pos(bl);
    }
    assert(0 * pow10(bl) + v == v) by (nonlinear_arith)
        requires pow10(bl) >= 1,
    {
    }
    assert(p_digits(s, i + bl, v) == (v, i + bl));
    assert(p_digits(s, i, 0) == (v, i + bl));
}

/// Parsing an identifier at its own rendering recovers it.
#[verifier::rlimit(100)]
proof fn lemma_p_id_of(s: Seq<char>, i: int, id: Seq<char>)
    requires
        0 <= i,
        id.len() <= usize::MAX,
        i + ser_id(id).len() <= s.len(),
        s.subrange(i, i + ser_id(id).len() as int) == ser_id(id),
    ensures
        p_id(s, i) == Some((id, i + ser_id(id).len() as int)),
{
    let dl = dec_str(id.len() as int).len() as int;
    let total = ser_id(id).len() as int;
    assert(total == dl + 1 + id.len());
    assert(s.subrange(i, i + dl) =~= dec_str(id.len() as int)) by {
        assert(forall|p: int| 0 <= p < dl
            ==> #[trigger] s.subrange(i, i + dl)[p] == s.subrange(i, i + total)[p]);
    }
    assert(s[i + dl] == ser_id(id)[dl]);
    assert(ser_id(id)[dl] == ' ');
    assert(!is_digit(' '));
    lemma_p_dec_of(s, i, id.len() as int);
    assert(p_char(s, i + dl, ' ') == Some(i + dl + 1));
    assert forall|p: int| 0 <= p < id.len()
        implies #[trigger] s.subrange(i + dl + 1, i + dl + 1 + id.len() as int)[p]
            == id[p] by {
        assert(s.subrange(i + dl + 1, i + dl + 1 + id.len() as int)[p] == s[i + dl + 1 + p]);
        assert(s[i + dl + 1 + p] == s.subrange(i, i + total)[dl + 1 + p]);
        assert(ser_id(id)[dl + 1 + p] == id[p]);
    }
    assert(s.subrange(i + dl + 1, i + dl + 1 + id.len() as int) =~= id);
}


proof fn lemma_split(s: Seq<char>, i: int, a: Seq<char>, b: Seq<char>)
    requires
        0 <= i,
        i + a.len() + b.len() <= s.len(),
        s.subrange(i, i + a.len() + b.len()) == a + b,
    ensures
        s.subrange(i, i + a.len() as int) == a,
        s.subrange(i + a.len() as int, i + a.len() + b.len()) == b,
{
    let w = s.subrange(i, i + a.len() + b.len());
    assert forall|p: int| 0 <= p < a.len()
        implies #[trigger] s.subrange(i, i + a.len() as int)[p] == a[p] by {
        assert(s.subrange(i, i + a.len() as int)[p] == s[i + p]);
        assert(w[p] == s[i + p]);
        assert((a + b)[p] == a[p]);
    }
    assert(s.subrange(i, i + a.len() as int) =~= a);
    assert forall|p: int| 0 <= p < b.len()
        implies #[trigger] s.subrange(i + a.len() as int, i + a.len() + b.len())[p]
            == b[p] by {
        assert(s.subrange(i + a.len() as int, i + a.len() + b.len())[p]
            == s[i + a.len() + p]);
        assert(w[a.len() + p] == s[i + a.len() + p]);
        assert((a + b)[a.len() + p] == b[p]);
    }
    assert(s.subrange(i + a.len() as int, i + a.len() + b.len()) =~= b);
}

/// The machine bounds a node must satisfy to cross the wire.
pub open spec fn node_wire_ok(n: NodeModel) -> bool {
    &&& 0 <= n.x <= usize::MAX
    &&& 0 <= n.y <= usize::MAX
    &&& 0 <= n.w <= usize::MAX
    &&& 0 <= n.h <= usize::MAX
    &&& n.id.len() <= usize::MAX
}

/// Parsing an item line at its own rendering recovers it.
#[verifier::rlimit(100)]
proof fn lemma_p_node_of(s: Seq<char>, i: int, nd: NodeModel)
    requires
        0 <= i,
        node_wire_ok(nd),
        i + ser_node(nd).len() <= s.len(),
        s.subrange(i, i + ser_node(nd).len() as int) == ser_node(nd),
    ensures
        p_node(s, i) == Some((nd, i + ser_node(nd).len() as int)),
{
    let aid = ser_id(nd.id);
    let dx = dec_str(nd.x);
    let dy = dec_str(nd.y);
    let dw = dec_str(nd.w);
    let dh = dec_str(nd.h);
    let r1 = sp() + (dx + (sp() + (dy + (sp() + (dw + (sp() + (dh + nl())))))));
    assert(ser_node(nd) =~= aid + r1);
    let o1 = i + aid.len() as int;
    lemma_split(s, i, aid, r1);
    let r2 = dx + (sp() + (dy + (sp() + (dw + (sp() + (dh + nl()))))));
    assert(r1 =~= sp() + r2);
    lemma_split(s, o1, sp(), r2);
    let o2 = o1 + 1;
    let r3 = sp() + (dy + (sp() + (dw + (sp() + (dh + nl())))));
    assert(r2 =~= dx + r3);
    lemma_split(s, o2, dx, r3);
    let o3 = o2 + dx.len() as int;
    let r4 = dy + (sp() + (dw + (sp() + (dh + nl()))));
    assert(r3 =~= sp() + r4);
    lemma_split(s, o3, sp(), r4);
    let o4 = o3 + 1;
    let r5 = sp() + (dw + (sp() + (dh + nl())));
    assert(r4 =~= dy + r5);
    lemma_split(s, o4, dy, r5);
    let o5 = o4 + dy.len() as int;
    let r6 = dw + (sp() + (dh + nl()));
    assert(r5 =~= sp() + r6);
    lemma_split(s, o5, sp(), r6);
    let o6 = o5 + 1;
    let r7 = sp() + (dh + nl());
    assert(r6 =~= dw + r7);
    lemma_split(s, o6, dw, r7);
    let o7 = o6 + dw.len() as int;
    let r8 = dh + nl();
    assert(r7 =~= sp() + r8);
    lemma_split(s, o7, sp(), r8);
    let o8 = o7 + 1;
    lemma_split(s, o8, dh, nl());
    let o9 = o8 + dh.len() as int;
    // each separator is visible at its position
    assert(s[o1] == ' ') by {
        assert(s.subrange(o1, o1 + 1)[0] == s[o1]);
    }
    assert(s[o3] == ' ') by {
        assert(s.subrange(o3, o3 + 1)[0] == s[o3]);
    }
    assert(s[o5] == ' ') by {
        assert(s.subrange(o5, o5 + 1)[0] == s[o5]);
    }
    assert(s[o7] == ' ') by {
        assert(s.subrange(o7, o7 + 1)[0] == s[o7]);
    }
    assert(s[o9] == '\n') by {
        assert(s.subrange(o9, o9 + 1)[0] == s[o9]);
    }
    assert(!is_digit(' ') && !is_digit('\n'));
    lemma_p_id_of(s, i, nd.id);
    lemma_p_dec_of(s, o2, nd.x);
    lemma_p_dec_of(s, o4, nd.y);
    lemma_p_dec_of(s, o6, nd.w);
    lemma_p_dec_of(s, o8, nd.h);
    assert(p_char(s, o1, ' ') == Some(o2));
    assert(p_char(s, o3, ' ') == Some(o4));
    assert(p_char(s, o5, ' ') == Some(o6));
    assert(p_char(s, o7, ' ') == Some(o8));
    assert(p_char(s, o9, '\n') == Some(o9 + 1));
    assert(o9 + 1 == i + ser_node(nd).len());
}

/// Parsing item lines at their own rendering recovers them.
proof fn lemma_p_nodes_of(s: Seq<char>, i: int, items: Seq<NodeModel>, k: int)
    requires
        0 <= i,
        0 <= k <= items.len(),
        forall|p: int| 0 <= p < items.len() ==> node_wire_ok(#[trigger] items[p]),
        i + crate::ser::ser_items(items, k).len() <= s.len(),
        s.subrange(i, i + crate::ser::ser_items(items, k).len() as int)
            == crate::ser::ser_items(items, k),
    ensures
        p_nodes(s, i, items.len() - k) == Some(
            (items.skip(k), i + crate::ser::ser_items(items, k).len() as int),
        ),
    decreases items.len() - k,
{
    if k == items.len() {
        assert(crate::ser::ser_items(items, k) =~= Seq::<char>::empty());
        assert(items.skip(k) =~= Seq::<NodeModel>::empty());
    } else {
        let head = ser_node(items[k]);
        let rest = crate::ser::ser_items(items, k + 1);
        assert(crate::ser::ser_items(items, k) =~= head + rest);
        lemma_split(s, i, head, rest);
        lemma_p_node_of(s, i, items[k]);
        let j = i + head.len() as int;
        lemma_p_nodes_of(s, j, items, k + 1);
        assert(items.skip(k) =~= seq![items[k]] + items.skip(k + 1));
    }
}

/// Replaying the canonical form of a well-formed view through the parser
/// yields the view itself: serialization loses nothing, and two views are
/// equal exactly when their serializations are.
#[verifier::rlimit(100)]
pub proof fn lemma_snapshot_round_trip(m: GridModel)
    requires
        view_wf(m),
        forall|p: int| 0 <= p < m.items.len() ==> node_wire_ok(#[trigger] m.items[p]),
    ensures
        p_view(crate::ser::ser_view(m)) == Some(m),
{
    let s = crate::ser::ser_view(m);
    let dr = dec_str(m.rows);
    let dc = dec_str(m.cols);
    let dn = dec_str(m.items.len() as int);
    let its = crate::ser::ser_items(m.items, 0);
    let cls = ser_cells(m.items, m.rows, m.cols, 0, 0);
    let hdr_rest = sp() + (dr + (sp() + (dc + (sp() + (dn + nl())))));
    assert(s =~= seq!['G'] + (seq!['V'] + (hdr_rest + (its + cls))));
    assert(s.subrange(0, s.len() as int) =~= s);
    lemma_split(s, 0, seq!['G'], seq!['V'] + (hdr_rest + (its + cls)));
    lemma_split(s, 1, seq!['V'], hdr_rest + (its + cls));
    lemma_split(s, 2, hdr_rest, its + cls);
    let o0 = 2;
    lemma_split(s, o0, sp(), dr + (sp() + (dc + (sp() + (dn + nl())))));
    let o1 = o0 + 1;
    lemma_split(s, o1, dr, sp() + (dc + (sp() + (dn + nl()))));
    let o2 = o1 + dr.len() as int;
    lemma_split(s, o2, sp(), dc + (sp() + (dn + nl())));
    let o3 = o2 + 1;
    lemma_split(s, o3, dc, sp() + (dn + nl()));
    let o4 = o3 + dc.len() as int;
    lemma_split(s, o4, sp(), dn + nl());
    let o5 = o4 + 1;
    lemma_split(s, o5, dn, nl());
    let o6 = o5 + dn.len() as int;
    let o7 = o6 + 1;
    let hl = 2 + hdr_rest.len() as int;
    assert(o7 == hl);
    lemma_split(s, hl, its, cls);
    let o8 = hl + its.len() as int;
    assert(s[0] == 'G') by {
        assert(s.subrange(0, 1)[0] == s[0]);
    }
    assert(s[1] == 'V') by {
        assert(s.subrange(1, 2)[0] == s[1]);
    }
    assert(s[o0] == ' ') by {
        assert(s.subrange(o0, o0 + 1)[0] == s[o0]);
    }
    assert(s[o2] == ' ') by {
        assert(s.subrange(o2, o2 + 1)[0] == s[o2]);
    }
    assert(s[o4] == ' ') by {
        assert(s.subrange(o4, o4 + 1)[0] == s[o4]);
    }
    assert(s[o6] == '\n') by {
        assert(s.subrange(o6, o6 + 1)[0] == s[o6]);
    }
    assert(!is_digit(' ') && !is_digit('\n'));
    lemma_p_dec_of(s, o1, m.rows);
    lemma_p_dec_of(s, o3, m.cols);
    lemma_p_dec_of(s, o5, m.items.len() as int);
    lemma_p_nodes_of(s, o7, m.items, 0);
    assert(m.items.skip(0) =~= m.items);
    assert(p_nodes(s, o7, m.items.len() as int) == Some((m.items, o8)));
    assert(s.skip(o8) =~= cls) by {
        assert(forall|p: int| 0 <= p < cls.len()
            ==> #[trigger] s.skip(o8)[p] == s.subrange(o8, o8 + cls.len() as int)[p]);
        assert(s.skip(o8).len() == cls.len());
    }
    assert(p_view(s) == Some(m));
}


/// The machine bounds a change must satisfy to cross the wire.
pub open spec fn change_wire_ok(c: ChangeModel) -> bool {
    match c {
        ChangeModel::Add { value } => node_wire_ok(value),
        ChangeModel::Remove { value } => node_wire_ok(value),
        ChangeModel::Move { old_value, new_value } => node_wire_ok(old_value) && node_wire_ok(
            new_value,
        ),
    }
}

/// The machine bounds a batch must satisfy to cross the wire.
pub open spec fn batch_wire_ok(b: BatchModel) -> bool {
    &&& b.changes.len() <= usize::MAX
    &&& b.hash_before.len() <= usize::MAX
    &&& b.hash_after.len() <= usize::MAX
    &&& forall|p: int| 0 <= p < b.changes.len() ==> change_wire_ok(#[trigger] b.changes[p])
}

#[verifier::rlimit(100)]
proof fn lemma_p_change_of(s: Seq<char>, i: int, c: ChangeModel)
    requires
        0 <= i,
        change_wire_ok(c),
        i + ser_change(c).len() <= s.len(),
        s.subrange(i, i + ser_change(c).len() as int) == ser_change(c),
    ensures
        p_change(s, i) == Some((c, i + ser_change(c).len() as int)),
{
    match c {
        ChangeModel::Add { value } => {
            assert(ser_change(c) =~= seq!['A'] + (sp() + ser_node(value)));
            lemma_split(s, i, seq!['A'], sp() + ser_node(value));
            lemma_split(s, i + 1, sp(), ser_node(value));
            assert(s[i] == 'A') by {
                assert(s.subrange(i, i + 1)[0] == s[i]);
            }
            assert(s[i + 1] == ' ') by {
                assert(s.subrange(i + 1, i + 2)[0] == s[i + 1]);
            }
            lemma_p_node_of(s, i + 2, value);
        },
        ChangeModel::Remove { value } => {
            assert(ser_change(c) =~= seq!['R'] + (sp() + ser_node(value)));
            lemma_split(s, i, seq!['R'], sp() + ser_node(value));
            lemma_split(s, i + 1, sp(), ser_node(value));
            assert(s[i] == 'R') by {
                assert(s.subrange(i, i + 1)[0] == s[i]);
            }
            assert(s[i + 1] == ' ') by {
                assert(s.subrange(i + 1, i + 2)[0] == s[i + 1]);
            }
            lemma_p_node_of(s, i + 2, value);
        },
        ChangeModel::Move { old_value, new_value } => {
            assert(ser_change(c) =~= seq!['M'] + (sp() + (ser_node(old_value) + ser_node(
                new_value,
            ))));
            lemma_split(s, i, seq!['M'], sp() + (ser_node(old_value) + ser_node(new_value)));
            lemma_split(s, i + 1, sp(), ser_node(old_value) + ser_node(new_value));
            lemma_split(s, i + 2, ser_node(old_value), ser_node(new_value));
            assert(s[i] == 'M') by {
                assert(s.subrange(i, i + 1)[0] == s[i]);
            }
            assert(s[i + 1] == ' ') by {
                assert(s.subrange(i + 1, i + 2)[0] == s[i + 1]);
            }
            lemma_p_node_of(s, i + 2, old_value);
            lemma_p_node_of(s, i + 2 + ser_node(old_value).len() as int, new_value);
        },
    }
}

proof fn lemma_p_changes_of(s: Seq<char>, i: int, cs: Seq<ChangeModel>, k: int)
    requires
        0 <= i,
        0 <= k <= cs.len(),
        forall|p: int| 0 <= p < cs.len() ==> change_wire_ok(#[trigger] cs[p]),
        i + ser_changes(cs, k).len() <= s.len(),
        s.subrange(i, i + ser_changes(cs, k).len() as int) == ser_changes(cs, k),
    ensures
        p_changes(s, i, cs.len() - k) == Some(
            (cs.skip(k), i + ser_changes(cs, k).len() as int),
        ),
    decreases cs.len() - k,
{
    if k == cs.len() {
        assert(ser_changes(cs, k) =~= Seq::<char>::empty());
        assert(cs.skip(k) =~= Seq::<ChangeModel>::empty());
    } else {
        let head = ser_change(cs[k]);
        let rest = ser_changes(cs, k + 1);
        assert(ser_changes(cs, k) =~= head + rest);
        lemma_split(s, i, head, rest);
        lemma_p_change_of(s, i, cs[k]);
        lemma_p_changes_of(s, i + head.len() as int, cs, k + 1);
        assert(cs.skip(k) =~= seq![cs[k]] + cs.skip(k + 1));
    }
}

/// Replaying the canonical form of a batch through the parser yields the
/// batch itself.
#[verifier::rlimit(100)]
pub proof fn lemma_batch_round_trip(b: BatchModel)
    requires
        batch_wire_ok(b),
    ensures
        p_batch(ser_batch(b)) == Some(b),
{
    let s = ser_batch(b);
    let dn = dec_str(b.changes.len() as int);
    let ihb = ser_id(b.hash_before);
    let iha = ser_id(b.hash_after);
    let cs = ser_changes(b.changes, 0);
    assert(s =~= seq!['C'] + (seq!['B'] + (sp() + (dn + (nl() + (ihb + (nl() + (iha + (nl()
        + cs)))))))));
    assert(s.subrange(0, s.len() as int) =~= s);
    lemma_split(s, 0, seq!['C'], seq!['B'] + (sp() + (dn + (nl() + (ihb + (nl() + (iha + (nl()
        + cs))))))));
    lemma_split(s, 1, seq!['B'], sp() + (dn + (nl() + (ihb + (nl() + (iha + (nl() + cs)))))));
    lemma_split(s, 2, sp(), dn + (nl() + (ihb + (nl() + (iha + (nl() + cs))))));
    let o1 = 3;
    lemma_split(s, o1, dn, nl() + (ihb + (nl() + (iha + (nl() + cs)))));
    let o2 = o1 + dn.len() as int;
    lemma_split(s, o2, nl(), ihb + (nl() + (iha + (nl() + cs))));
    let o3 = o2 + 1;
    lemma_split(s, o3, ihb, nl() + (iha + (nl() + cs)));
    let o4 = o3 + ihb.len() as int;
    lemma_split(s, o4, nl(), iha + (nl() + cs));
    let o5 = o4 + 1;
    lemma_split(s, o5, iha, nl() + cs);
    let o6 = o5 + iha.len() as int;
    lemma_split(s, o6, nl(), cs);
    let o7 = o6 + 1;
    assert(s[0] == 'C') by {
        assert(s.subrange(0, 1)[0] == s[0]);
    }
    assert(s[1] == 'B') by {
        assert(s.subrange(1, 2)[0] == s[1]);
    }
    assert(s[2] == ' ') by {
        assert(s.subrange(2, 3)[0] == s[2]);
    }
    assert(s[o2] == '\n') by {
        assert(s.subrange(o2, o2 + 1)[0] == s[o2]);
    }
    assert(s[o4] == '\n') by {
        assert(s.subrange(o4, o4 + 1)[0] == s[o4]);
    }
    assert(s[o6] == '\n') by {
        assert(s.subrange(o6, o6 + 1)[0] == s[o6]);
    }
    assert(!is_digit('\n'));
    lemma_p_dec_of(s, o1, b.changes.len() as int);
    lemma_p_id_of(s, o3, b.hash_before);
    lemma_p_id_of(s, o5, b.hash_after);
    lemma_p_changes_of(s, o7, b.changes, 0);
    assert(b.changes.skip(0) =~= b.changes);
    assert(o7 + cs.len() == s.len());
    assert(p_batch(s) == Some(b));
}


/// The fold of the digit block `[i, k)` into an accumulator.
spec fn fold_digits(s: Seq<char>, i: int, k: int, acc: int) -> int
    decreases k - i,
{
    if i >= k {
        acc
    } else {
        fold_digits(s, i + 1, k, acc * 10 + digit_val(s[i]))
    }
}

proof fn lemma_p_digits_run(s: Seq<char>, i: int, acc: int)
    requires
        0 <= i <= s.len(),
    ensures
        ({
            let j = p_digits(s, i, acc).1;
            &&& i <= j <= s.len()
            &&& (j == s.len() || !is_digit(s[j]))
            &&& forall|p: int| i <= p < j ==> is_digit(#[trigger] s[p])
            &&& p_digits(s, i, acc).0 == fold_digits(s, i, j, acc)
            &&& p_digits(s, i, acc).1 == p_digits(s, i, 0).1
        }),
    decreases s.len() - i,
{
    if i < s.len() && is_digit(s[i]) {
        lemma_p_digits_run(s, i + 1, acc * 10 + digit_val(s[i]));
        lemma_p_digits_run(s, i + 1, digit_val(s[i]));
        lemma_p_digits_run(s, i + 1, 0);
        assert(p_digits(s, i, 0) == p_digits(s, i + 1, digit_val(s[i])));
        let j = p_digits(s, i, acc).1;
        assert(j == p_digits(s, i + 1, acc * 10 + digit_val(s[i])).1);
        assert(j >= i + 1);
        assert(fold_digits(s, i, j, acc)
            == fold_digits(s, i + 1, j, acc * 10 + digit_val(s[i])));
    } else {
        let j = p_digits(s, i, acc).1;
        assert(j == i);
        assert(fold_digits(s, i, j, acc) == acc);
    }
}

proof fn lemma_fold_last(s: Seq<char>, i: int, k: int, acc: int)
    requires
        i < k,
    ensures
        fold_digits(s, i, k, acc) == fold_digits(s, i, k - 1, acc) * 10 + digit_val(s[k - 1]),
    decreases k - i,
{
    if i + 1 < k {
        lemma_fold_last(s, i + 1, k, acc * 10 + digit_val(s[i]));
        assert(fold_digits(s, i, k, acc)
            == fold_digits(s, i + 1, k, acc * 10 + digit_val(s[i])));
        assert(fold_digits(s, i, k - 1, acc)
            == fold_digits(s, i + 1, k - 1, acc * 10 + digit_val(s[i])));
    } else {
        assert(fold_digits(s, i, k, acc)
            == fold_digits(s, i + 1, k, acc * 10 + digit_val(s[i])));
        assert(fold_digits(s, i + 1, k, acc * 10 + digit_val(s[i]))
            == acc * 10 + digit_val(s[i]));
        assert(fold_digits(s, i, k - 1, acc) == acc);
    }
}

proof fn lemma_fold_lower(s: Seq<char>, i: int, k: int)
    requires
        i < k,
        forall|p: int| i <= p < k ==> is_digit(#[trigger] s[p]),
    ensures
        fold_digits(s, i, k, 0) >= digit_val(s[i]) * pow10(k - i - 1),
        fold_digits(s, i, k, 0) >= 0,
    decreases k - i,
{
    if i + 1 == k {
        assert(fold_digits(s, i, k, 0) == fold_digits(s, i + 1, k, digit_val(s[i])));
        assert(fold_digits(s, i + 1, k, digit_val(s[i])) == digit_val(s[i]));
        assert(pow10(0) == 1);
        assert(digit_val(s[i]) >= 0) by {
            vstd::utf8::char_u32_cast(s[i], s[i] as u32);
        }
    } else {
        lemma_fold_lower(s, i, k - 1);
        lemma_fold_last(s, i, k, 0);
        lemma_pow10_pos(k - i - 2);
        assert(fold_digits(s, i, k, 0) >= digit_val(s[i]) * pow10(k - i - 1)) by (
            nonlinear_arith
        )
            requires
                fold_digits(s, i, k, 0) == fold_digits(s, i, k - 1, 0) * 10 + digit_val(
                    s[k - 1],
                ),
                fold_digits(s, i, k - 1, 0) >= digit_val(s[i]) * pow10(k - i - 2),
                pow10(k - i - 1) == 10 * pow10(k - i - 2),
                digit_val(s[k - 1]) >= 0,
                digit_val(s[i]) >= 0,
                pow10(k - i - 2) >= 1,
        {
        }
    }
}

proof fn lemma_digit_char_of_val(c: char)
    requires
        is_digit(c),
    ensures
        crate::text::digit_char(digit_val(c)) == c,
{
    vstd::utf8::char_u32_cast(c, c as u32);
    let v = digit_val(c);
    assert(crate::text::digit_char(v) as u32 == 48 + v);
    vstd::utf8::char_u32_cast(crate::text::digit_char(v), crate::text::digit_char(v) as u32);
}

/// Two digit blocks without leading zeros that fold to the same value are
/// the same block.
proof fn lemma_fold_unique(a: Seq<char>, b: Seq<char>)
    requires
        a.len() >= 1,
        b.len() >= 1,
        forall|p: int| 0 <= p < a.len() ==> is_digit(#[trigger] a[p]),
        forall|p: int| 0 <= p < b.len() ==> is_digit(#[trigger] b[p]),
        a[0] != '0' || a.len() == 1,
        b[0] != '0' || b.len() == 1,
        fold_digits(a, 0, a.len() as int, 0) == fold_digits(b, 0, b.len() as int, 0),
    ensures
        a == b,
    decreases a.len(),
{
    let va = fold_digits(a, 0, a.len() as int, 0);
    let vb = fold_digits(b, 0, b.len() as int, 0);
    assert('0' as u32 == 48);
    if a.len() == 1 && b.len() == 1 {
        assert(va == fold_digits(a, 1, 1, digit_val(a[0])));
        assert(vb == fold_digits(b, 1, 1, digit_val(b[0])));
        assert(va == digit_val(a[0]) && vb == digit_val(b[0]));
        lemma_digit_char_of_val(a[0]);
        lemma_digit_char_of_val(b[0]);
        assert(a =~= b);
    } else if a.len() == 1 {
        assert(va == fold_digits(a, 1, 1, digit_val(a[0])));
        vstd::utf8::char_u32_cast(a[0], a[0] as u32);
        assert(va == digit_val(a[0]) <= 9);
        assert(digit_val(b[0]) >= 1) by {
            vstd::utf8::char_u32_cast(b[0], b[0] as u32);
        }
        lemma_fold_lower(b, 0, b.len() as int);
        lemma_pow10_pos(b.len() - 2);
        assert(vb >= pow10(b.len() - 1)) by (nonlinear_arith)
            requires
                vb >= digit_val(b[0]) * pow10(b.len() - 1),
                digit_val(b[0]) >= 1,
                pow10(b.len() - 1) >= 1,
        {
        }
        assert(pow10(b.len() - 1) >= 10) by {
            lemma_pow10_pos(b.len() - 2);
        }
        assert(false);
    } else if b.len() == 1 {
        assert(vb == fold_digits(b, 1, 1, digit_val(b[0])));
        vstd::utf8::char_u32_cast(b[0], b[0] as u32);
        assert(vb == digit_val(b[0]) <= 9);
        assert(digit_val(a[0]) >= 1) by {
            vstd::utf8::char_u32_cast(a[0], a[0] as u32);
        }
        lemma_fold_lower(a, 0, a.len() as int);
        lemma_pow10_pos(a.len() - 2);
        assert(va >= pow10(a.len() - 1)) by (nonlinear_arith)
            requires
                va >= digit_val(a[0]) * pow10(a.len() - 1),
                digit_val(a[0]) >= 1,
                pow10(a.len() - 1) >= 1,
        {
        }
        assert(pow10(a.len() - 1) >= 10) by {
            lemma_pow10_pos(a.len() - 2);
        }
        assert(false);
    } else {
        lemma_fold_last(a, 0, a.len() as int, 0);
        lemma_fold_last(b, 0, b.len() as int, 0);
        let pa = a.take(a.len() - 1);
        let pb = b.take(b.len() - 1);
        assert(forall|p: int| 0 <= p < pa.len() ==> pa[p] == a[p]);
        assert(forall|p: int| 0 <= p < pb.len() ==> pb[p] == b[p]);
        assert(fold_digits(pa, 0, pa.len() as int, 0)
            == fold_digits(a, 0, a.len() - 1, 0)) by {
            lemma_fold_prefix_eq(a, pa, 0, pa.len() as int, 0);
        }
        assert(fold_digits(pb, 0, pb.len() as int, 0)
            == fold_digits(b, 0, b.len() - 1, 0)) by {
            lemma_fold_prefix_eq(b, pb, 0, pb.len() as int, 0);
        }
        let da = digit_val(a[a.len() - 1]);
        let db = digit_val(b[b.len() - 1]);
        assert(0 <= da <= 9 && 0 <= db <= 9) by {
            vstd::utf8::char_u32_cast(a[a.len() - 1], a[a.len() - 1] as u32);
            vstd::utf8::char_u32_cast(b[b.len() - 1], b[b.len() - 1] as u32);
        }
        lemma_fold_lower(a, 0, a.len() - 1);
        lemma_fold_lower(b, 0, b.len() - 1);
        assert(va == fold_digits(a, 0, a.len() - 1, 0) * 10 + da);
        assert(vb == fold_digits(b, 0, b.len() - 1, 0) * 10 + db);
        assert(da == db && fold_digits(a, 0, a.len() - 1, 0)
            == fold_digits(b, 0, b.len() - 1, 0)) by (nonlinear_arith)
            requires
                fold_digits(a, 0, a.len() - 1, 0) * 10 + da
                    == fold_digits(b, 0, b.len() - 1, 0) * 10 + db,
                0 <= da <= 9,
                0 <= db <= 9,
                fold_digits(a, 0, a.len() - 1, 0) >= 0,
                fold_digits(b, 0, b.len() - 1, 0) >= 0,
        {
        }
        lemma_fold_unique(pa, pb);
        lemma_digit_char_of_val(a[a.len() - 1]);
        lemma_digit_char_of_val(b[b.len() - 1]);
        assert(a =~= b) by {
            assert(pa.len() == pb.len());
            assert(forall|p: int| 0 <= p < a.len() - 1 ==> a[p] == pa[p] && b[p] == pb[p]);
        }
    }
}

proof fn lemma_fold_prefix_eq(s: Seq<char>, t: Seq<char>, i: int, k: int, acc: int)
    requires
        0 <= i,
        k <= t.len(),
        t.len() <= s.len(),
        forall|p: int| 0 <= p < t.len() ==> #[trigger] t[p] == s[p],
    ensures
        fold_digits(t, i, k, acc) == fold_digits(s, i, k, acc),
    decreases k - i,
{
    if i < k {
        lemma_fold_prefix_eq(s, t, i + 1, k, acc * 10 + digit_val(s[i]));
    }
}

/// A number the parser accepts occupies exactly its own rendering.
proof fn lemma_p_dec_strict(s: Seq<char>, i: int)
    requires
        p_dec(s, i) is Some,
    ensures
        ({
            let (v, j) = p_dec(s, i)->Some_0;
            &&& i < j <= s.len()
            &&& s.subrange(i, j) == dec_str(v)
            &&& 0 <= v <= usize::MAX
        }),
{
    let (v, j) = p_dec(s, i)->Some_0;
    lemma_p_digits_run(s, i, 0);
    assert(j == p_digits(s, i, 0).1);
    assert(v == fold_digits(s, i, j, 0));
    assert(is_digit(s[i]));
    assert(i < j) by {
        if i == j {
            assert(!is_digit(s[i]));
        }
    }
    let blk = s.subrange(i, j);
    assert(forall|p: int| 0 <= p < blk.len() ==> #[trigger] blk[p] == s[i + p]);
    assert(forall|p: int| 0 <= p < blk.len() ==> is_digit(#[trigger] blk[p]));
    assert(fold_digits(blk, 0, blk.len() as int, 0) == v) by {
        lemma_fold_shift(s, blk, i, 0, blk.len() as int, 0);
    }
    // no leading zero: a longer block may not start with the zero digit
    assert(blk[0] != '0' || blk.len() == 1) by {
        if blk.len() > 1 && blk[0] == '0' {
            assert(s[i] == '0');
            assert(is_digit(s[i + 1]));
        }
    }
    // the rendering of the same value is the other such block
    lemma_fold_lower(s, i, j);
    assert(v >= 0);
    lemma_dec_str_digits(v);
    assert(fold_digits(dec_str(v), 0, dec_str(v).len() as int, 0) == v) by {
        assert(dec_str(v).subrange(0, dec_str(v).len() as int) =~= dec_str(v));
        lemma_p_digits_block(dec_str(v), 0, v, 0);
        lemma_p_digits_run(dec_str(v), 0, 0);
        assert(p_digits(dec_str(v), 0, 0)
            == p_digits(dec_str(v), dec_str(v).len() as int, v));
        assert(p_digits(dec_str(v), dec_str(v).len() as int, v)
            == (v, dec_str(v).len() as int));
        lemma_pow10_pos(dec_str(v).len() as int);
        assert(0 * pow10(dec_str(v).len() as int) + v == v) by (nonlinear_arith)
        {
        }
        assert(fold_digits(dec_str(v), 0, p_digits(dec_str(v), 0, 0).1, 0)
            == p_digits(dec_str(v), 0, 0).0);
    }
    assert(dec_str(v)[0] != '0' || dec_str(v).len() == 1) by {
        if v == 0 {
            assert(dec_str(v) =~= seq!['0']);
        }
    }
    lemma_fold_unique(blk, dec_str(v));
}

proof fn lemma_fold_shift(s: Seq<char>, blk: Seq<char>, base: int, i: int, k: int, acc: int)
    requires
        0 <= base,
        0 <= i <= k <= blk.len(),
        base + blk.len() <= s.len(),
        forall|p: int| 0 <= p < blk.len() ==> #[trigger] blk[p] == s[base + p],
    ensures
        fold_digits(blk, i, k, acc) == fold_digits(s, base + i, base + k, acc),
    decreases k - i,
{
    if i < k {
        lemma_fold_shift(s, blk, base, i + 1, k, acc * 10 + digit_val(blk[i]));
    }
}


/// An identifier the parser accepts occupies exactly its own rendering.
proof fn lemma_p_id_strict(s: Seq<char>, i: int)
    requires
        p_id(s, i) is Some,
    ensures
        ({
            let (id, j) = p_id(s, i)->Some_0;
            &&& i < j <= s.len()
            &&& id.len() <= usize::MAX
            &&& s.subrange(i, j) == ser_id(id)
        }),
{
    let (id, j) = p_id(s, i)->Some_0;
    let (len, j0) = p_dec(s, i)->Some_0;
    lemma_p_dec_strict(s, i);
    let j2 = j0 + 1;
    assert(s[j0] == ' ');
    assert(id == s.subrange(j2, j2 + len));
    assert(id.len() == len);
    let r = ser_id(id);
    assert(r == dec_str(len) + sp() + id);
    assert forall|p: int| 0 <= p < j - i implies #[trigger] s.subrange(i, j)[p] == r[p] by {
        assert(s.subrange(i, j)[p] == s[i + p]);
        if p < j0 - i {
            assert(s.subrange(i, j0)[p] == s[i + p]);
            assert(r[p] == dec_str(len)[p]);
        } else if p == j0 - i {
            assert(r[p] == ' ');
        } else {
            assert(r[p] == id[p - (j0 - i) - 1]);
            assert(id[p - (j0 - i) - 1] == s[j2 + (p - (j0 - i) - 1)]);
        }
    }
    assert(s.subrange(i, j) =~= r);
}

/// An item line the parser accepts occupies exactly its own rendering.
#[verifier::rlimit(100)]
proof fn lemma_p_node_strict(s: Seq<char>, i: int)
    requires
        p_node(s, i) is Some,
    ensures
        ({
            let (nd, j) = p_node(s, i)->Some_0;
            &&& i < j <= s.len()
            &&& node_wire_ok(nd)
            &&& s.subrange(i, j) == ser_node(nd)
        }),
{
    let (nd, j) = p_node(s, i)->Some_0;
    let (id, j0) = p_id(s, i)->Some_0;
    lemma_p_id_strict(s, i);
    let j1 = j0 + 1;
    let (x, j2) = p_dec(s, j1)->Some_0;
    lemma_p_dec_strict(s, j1);
    let j3 = j2 + 1;
    let (y, j4) = p_dec(s, j3)->Some_0;
    lemma_p_dec_strict(s, j3);
    let j5 = j4 + 1;
    let (w, j6) = p_dec(s, j5)->Some_0;
    lemma_p_dec_strict(s, j5);
    let j7 = j6 + 1;
    let (h, j8) = p_dec(s, j7)->Some_0;
    lemma_p_dec_strict(s, j7);
    let j9 = j8 + 1;
    assert(s[j0] == ' ' && s[j2] == ' ' && s[j4] == ' ' && s[j6] == ' ' && s[j8] == '\n');
    let r = ser_node(nd);
    assert(r == ser_id(id) + sp() + dec_str(x) + sp() + dec_str(y) + sp() + dec_str(w) + sp()
        + dec_str(h) + nl());
    let l0 = j0 - i;
    let l2 = j2 - j1;
    let l4 = j4 - j3;
    let l6 = j6 - j5;
    let l8 = j8 - j7;
    assert forall|p: int| 0 <= p < j - i implies #[trigger] s.subrange(i, j)[p] == r[p] by {
        assert(s.subrange(i, j)[p] == s[i + p]);
        if p < l0 {
            assert(s.subrange(i, j0)[p] == s[i + p]);
            assert(r[p] == ser_id(id)[p]);
        } else if p == l0 {
            assert(r[p] == ' ');
        } else if p < l0 + 1 + l2 {
            assert(s.subrange(j1, j2)[p - l0 - 1] == s[i + p]);
            assert(r[p] == dec_str(x)[p - l0 - 1]);
        } else if p == l0 + 1 + l2 {
            assert(r[p] == ' ');
        } else if p < l0 + 1 + l2 + 1 + l4 {
            assert(s.subrange(j3, j4)[p - l0 - 1 - l2 - 1] == s[i + p]);
            assert(r[p] == dec_str(y)[p - l0 - 1 - l2 - 1]);
        } else if p == l0 + 1 + l2 + 1 + l4 {
            assert(r[p] == ' ');
        } else if p < l0 + 1 + l2 + 1 + l4 + 1 + l6 {
            assert(s.subrange(j5, j6)[p - l0 - 1 - l2 - 1 - l4 - 1] == s[i + p]);
            assert(r[p] == dec_str(w)[p - l0 - 1 - l2 - 1 - l4 - 1]);
        } else if p == l0 + 1 + l2 + 1 + l4 + 1 + l6 {
            assert(r[p] == ' ');
        } else if p < l0 + 1 + l2 + 1 + l4 + 1 + l6 + 1 + l8 {
            assert(s.subrange(j7, j8)[p - l0 - 1 - l2 - 1 - l4 - 1 - l6 - 1] == s[i + p]);
            assert(r[p] == dec_str(h)[p - l0 - 1 - l2 - 1 - l4 - 1 - l6 - 1]);
        } else {
            assert(p == j - i - 1);
            assert(r[p] == '\n');
        }
    }
    assert(s.subrange(i, j) =~= r);
}

proof fn lemma_ser_items_shift(a: Seq<NodeModel>, b: Seq<NodeModel>, ka: int, kb: int)
    requires
        0 <= ka <= a.len(),
        0 <= kb <= b.len(),
        a.len() - ka == b.len() - kb,
        forall|d: int| 0 <= d < a.len() - ka ==> #[trigger] a[ka + d] == b[kb + d],
    ensures
        crate::ser::ser_items(a, ka) == crate::ser::ser_items(b, kb),
    decreases a.len() - ka,
{
    if ka < a.len() {
        assert(a[ka + 0] == b[kb + 0]);
        assert forall|d: int| 0 <= d < a.len() - ka - 1
            implies #[trigger] a[ka + 1 + d] == b[kb + 1 + d] by {
            assert(a[ka + (1 + d)] == b[kb + (1 + d)]);
        }
        lemma_ser_items_shift(a, b, ka + 1, kb + 1);
    }
}

/// Item lines the parser accepts occupy exactly their own rendering.
proof fn lemma_p_nodes_strict(s: Seq<char>, i: int, n: int)
    requires
        0 <= n,
        0 <= i <= s.len(),
        p_nodes(s, i, n) is Some,
    ensures
        ({
            let (items, j) = p_nodes(s, i, n)->Some_0;
            &&& i <= j <= s.len()
            &&& items.len() == n
            &&& forall|p: int| 0 <= p < items.len() ==> node_wire_ok(#[trigger] items[p])
            &&& s.subrange(i, j) == crate::ser::ser_items(items, 0)
        }),
    decreases n,
{
    let (items, j) = p_nodes(s, i, n)->Some_0;
    if n == 0 {
        assert(s.subrange(i, i) =~= Seq::<char>::empty());
        assert(crate::ser::ser_items(items, 0) =~= Seq::<char>::empty());
    } else {
        let (nd, j0) = p_node(s, i)->Some_0;
        lemma_p_node_strict(s, i);
        let (rest, j1) = p_nodes(s, j0, n - 1)->Some_0;
        lemma_p_nodes_strict(s, j0, n - 1);
        assert(items == seq![nd] + rest);
        assert(items[0] == nd);
        assert(crate::ser::ser_items(items, 0)
            == ser_node(nd) + crate::ser::ser_items(items, 1));
        assert(crate::ser::ser_items(items, 1) == crate::ser::ser_items(rest, 0)) by {
            assert(forall|d: int| 0 <= d < rest.len() ==> #[trigger] items[1 + d] == rest[d]);
            lemma_ser_items_shift(items, rest, 1, 0);
        }
        assert forall|p: int| 0 <= p < j - i
            implies #[trigger] s.subrange(i, j)[p] == (ser_node(nd)
                + crate::ser::ser_items(rest, 0))[p] by {
            assert(s.subrange(i, j)[p] == s[i + p]);
            if p < j0 - i {
                assert(s.subrange(i, j0)[p] == s[i + p]);
            } else {
                assert(s.subrange(j0, j1)[p - (j0 - i)] == s[i + p]);
            }
        }
        assert(s.subrange(i, j) =~= ser_node(nd) + crate::ser::ser_items(rest, 0));
    }
}

/// A snapshot the parser accepts is exactly the canonical form of the view
/// it yields: together with the round trip, the codec accepts the canonical
/// forms of well-formed views and nothing else.
#[verifier::rlimit(100)]
pub proof fn lemma_snapshot_parse_exact(s: Seq<char>)
    requires
        p_view(s) is Some,
    ensures
        view_wf(p_view(s)->Some_0),
        s == crate::ser::ser_view(p_view(s)->Some_0),
{
    let m = p_view(s)->Some_0;
    assert(p_char(s, 0, 'G') is Some);
    assert(p_char(s, 1, 'V') is Some);
    assert(p_char(s, 2, ' ') is Some);
    let (rows, i3) = p_dec(s, 3)->Some_0;
    lemma_p_dec_strict(s, 3);
    let i4 = i3 + 1;
    let (cols, i5) = p_dec(s, i4)->Some_0;
    lemma_p_dec_strict(s, i4);
    let i6 = i5 + 1;
    let (n, i7) = p_dec(s, i6)->Some_0;
    lemma_p_dec_strict(s, i6);
    let i8 = i7 + 1;
    let (items, i9) = p_nodes(s, i8, n)->Some_0;
    lemma_p_nodes_strict(s, i8, n);
    assert(s[0] == 'G' && s[1] == 'V' && s[2] == ' ');
    assert(s[i3] == ' ' && s[i5] == ' ' && s[i7] == '\n');
    let hdr = crate::ser::ser_header(m.rows, m.cols, m.items.len() as int);
    assert(m.items.len() == n);
    assert(hdr == seq!['G', 'V'] + sp() + dec_str(rows) + sp() + dec_str(cols) + sp()
        + dec_str(n) + nl());
    assert forall|p: int| 0 <= p < i8 implies #[trigger] s.subrange(0, i8)[p] == hdr[p] by {
        assert(s.subrange(0, i8)[p] == s[p]);
        if p >= 3 && p < i3 {
            assert(s.subrange(3, i3)[p - 3] == s[p]);
            assert(hdr[p] == dec_str(rows)[p - 3]);
        } else if p > i3 && p < i5 {
            assert(s.subrange(i4, i5)[p - i4] == s[p]);
            assert(hdr[p] == dec_str(cols)[p - i4]);
        } else if p > i5 && p < i7 {
            assert(s.subrange(i6, i7)[p - i6] == s[p]);
            assert(hdr[p] == dec_str(n)[p - i6]);
        }
    }
    assert(s.subrange(0, i8) =~= hdr);
    let its = crate::ser::ser_items(items, 0);
    let cls = ser_cells(items, rows, cols, 0, 0);
    assert(s.skip(i9) == cls);
    assert forall|p: int| 0 <= p < s.len()
        implies #[trigger] s[p] == (hdr + its + cls)[p] by {
        if p < i8 {
            assert(s.subrange(0, i8)[p] == s[p]);
        } else if p < i9 {
            assert(s.subrange(i8, i9)[p - i8] == s[p]);
        } else {
            assert(s.skip(i9)[p - i9] == s[p]);
        }
    }
    assert(s.len() == hdr.len() + its.len() + cls.len()) by {
        assert(s.skip(i9).len() == s.len() - i9);
    }
    assert(s =~= hdr + its + cls);
}


proof fn lemma_ser_changes_shift(a: Seq<ChangeModel>, b: Seq<ChangeModel>, ka: int, kb: int)
    requires
        0 <= ka <= a.len(),
        0 <= kb <= b.len(),
        a.len() - ka == b.len() - kb,
        forall|d: int| 0 <= d < a.len() - ka ==> #[trigger] a[ka + d] == b[kb + d],
    ensures
        ser_changes(a, ka) == ser_changes(b, kb),
    decreases a.len() - ka,
{
    if ka < a.len() {
        assert(a[ka + 0] == b[kb + 0]);
        assert forall|d: int| 0 <= d < a.len() - ka - 1
            implies #[trigger] a[ka + 1 + d] == b[kb + 1 + d] by {
            assert(a[ka + (1 + d)] == b[kb + (1 + d)]);
        }
        lemma_ser_changes_shift(a, b, ka + 1, kb + 1);
    }
}

/// A change the parser accepts occupies exactly its own rendering.
proof fn lemma_p_change_strict(s: Seq<char>, i: int)
    requires
        p_change(s, i) is Some,
    ensures
        ({
            let (c, j) = p_change(s, i)->Some_0;
            &&& i < j <= s.len()
            &&& change_wire_ok(c)
            &&& s.subrange(i, j) == ser_change(c)
        }),
{
    let (c, j) = p_change(s, i)->Some_0;
    if s[i] == 'A' || s[i] == 'R' {
        assert(s[i + 1] == ' ');
        let (nd, k) = p_node(s, i + 2)->Some_0;
        lemma_p_node_strict(s, i + 2);
        let r = ser_change(c);
        assert forall|p: int| 0 <= p < j - i
            implies #[trigger] s.subrange(i, j)[p] == r[p] by {
            assert(s.subrange(i, j)[p] == s[i + p]);
            if p >= 2 {
                assert(s.subrange(i + 2, k)[p - 2] == s[i + p]);
                assert(r[p] == ser_node(nd)[p - 2]);
            }
        }
        assert(s.subrange(i, j) =~= r);
    } else {
        assert(s[i] == 'M');
        assert(s[i + 1] == ' ');
        let (o, k) = p_node(s, i + 2)->Some_0;
        lemma_p_node_strict(s, i + 2);
        let (nn, k2) = p_node(s, k)->Some_0;
        lemma_p_node_strict(s, k);
        let r = ser_change(c);
        assert(r == seq!['M'] + sp() + ser_node(o) + ser_node(nn));
        assert forall|p: int| 0 <= p < j - i
            implies #[trigger] s.subrange(i, j)[p] == r[p] by {
            assert(s.subrange(i, j)[p] == s[i + p]);
            if p >= 2 && p < k - i {
                assert(s.subrange(i + 2, k)[p - 2] == s[i + p]);
                assert(r[p] == ser_node(o)[p - 2]);
            } else if p >= k - i {
                assert(s.subrange(k, k2)[p - (k - i)] == s[i + p]);
                assert(r[p] == ser_node(nn)[p - (k - i)]);
            }
        }
        assert(s.subrange(i, j) =~= r);
    }
}

/// Changes the parser accepts occupy exactly their own rendering.
proof fn lemma_p_changes_strict(s: Seq<char>, i: int, n: int)
    requires
        0 <= n,
        0 <= i <= s.len(),
        p_changes(s, i, n) is Some,
    ensures
        ({
            let (cs, j) = p_changes(s, i, n)->Some_0;
            &&& i <= j <= s.len()
            &&& cs.len() == n
            &&& forall|p: int| 0 <= p < cs.len() ==> change_wire_ok(#[trigger] cs[p])
            &&& s.subrange(i, j) == ser_changes(cs, 0)
        }),
    decreases n,
{
    let (cs, j) = p_changes(s, i, n)->Some_0;
    if n == 0 {
        assert(s.subrange(i, i) =~= Seq::<char>::empty());
        assert(ser_changes(cs, 0) =~= Seq::<char>::empty());
    } else {
        let (c, j0) = p_change(s, i)->Some_0;
        lemma_p_change_strict(s, i);
        let (rest, j1) = p_changes(s, j0, n - 1)->Some_0;
        lemma_p_changes_strict(s, j0, n - 1);
        assert(cs == seq![c] + rest);
        assert(cs[0] == c);
        assert(ser_changes(cs, 0) == ser_change(c) + ser_changes(cs, 1));
        assert(ser_changes(cs, 1) == ser_changes(rest, 0)) by {
            assert(forall|d: int| 0 <= d < rest.len() ==> #[trigger] cs[1 + d] == rest[d]);
            lemma_ser_changes_shift(cs, rest, 1, 0);
        }
        assert forall|p: int| 0 <= p < j - i
            implies #[trigger] s.subrange(i, j)[p] == (ser_change(c)
                + ser_changes(rest, 0))[p] by {
            assert(s.subrange(i, j)[p] == s[i + p]);
            if p < j0 - i {
                assert(s.subrange(i, j0)[p] == s[i + p]);
            } else {
                assert(s.subrange(j0, j1)[p - (j0 - i)] == s[i + p]);
            }
        }
        assert(s.subrange(i, j) =~= ser_change(c) + ser_changes(rest, 0));
    }
}

/// A batch the parser accepts is exactly the canonical form of the batch it
/// yields.
#[verifier::rlimit(100)]
pub proof fn lemma_batch_parse_exact(s: Seq<char>)
    requires
        p_batch(s) is Some,
    ensures
        batch_wire_ok(p_batch(s)->Some_0),
        s == ser_batch(p_batch(s)->Some_0),
{
    let b = p_batch(s)->Some_0;
    assert(p_char(s, 0, 'C') is Some);
    assert(p_char(s, 1, 'B') is Some);
    assert(p_char(s, 2, ' ') is Some);
    let (n, i3) = p_dec(s, 3)->Some_0;
    lemma_p_dec_strict(s, 3);
    let i4 = i3 + 1;
    let (hb, i5) = p_id(s, i4)->Some_0;
    lemma_p_id_strict(s, i4);
    let i6 = i5 + 1;
    let (ha, i7) = p_id(s, i6)->Some_0;
    lemma_p_id_strict(s, i6);
    let i8 = i7 + 1;
    let (cs, i9) = p_changes(s, i8, n)->Some_0;
    lemma_p_changes_strict(s, i8, n);
    assert(i9 == s.len());
    assert(s[0] == 'C' && s[1] == 'B' && s[2] == ' ');
    assert(s[i3] == '\n' && s[i5] == '\n' && s[i7] == '\n');
    let r = ser_batch(b);
    assert(b.changes.len() == n);
    assert(r == seq!['C', 'B'] + sp() + dec_str(n) + nl() + ser_id(hb) + nl() + ser_id(ha)
        + nl() + ser_changes(cs, 0));
    assert forall|p: int| 0 <= p < s.len() implies #[trigger] s[p] == r[p] by {
        if p >= 3 && p < i3 {
            assert(s.subrange(3, i3)[p - 3] == s[p]);
            assert(r[p] == dec_str(n)[p - 3]);
        } else if p > i3 && p < i5 {
            assert(s.subrange(i4, i5)[p - i4] == s[p]);
            assert(r[p] == ser_id(hb)[p - i4]);
        } else if p > i5 && p < i7 {
            assert(s.subrange(i6, i7)[p - i6] == s[p]);
            assert(r[p] == ser_id(ha)[p - i6]);
        } else if p > i7 {
            assert(s.subrange(i8, i9)[p - i8] == s[p]);
            assert(r[p] == ser_changes(cs, 0)[p - i8]);
        }
    }
    assert(s =~= r);
}

/// Two well-formed views serialize equally exactly when they are the same
/// view.
pub proof fn lemma_serialization_injective(a: GridModel, b: GridModel)
    requires
        view_wf(a),
        view_wf(b),
        forall|p: int| 0 <= p < a.items.len() ==> node_wire_ok(#[trigger] a.items[p]),
        forall|p: int| 0 <= p < b.items.len() ==> node_wire_ok(#[trigger] b.items[p]),
        crate::ser::ser_view(a) == crate::ser::ser_view(b),
    ensures
        a == b,
{
    lemma_snapshot_round_trip(a);
    lemma_snapshot_round_trip(b);
}

} // verus!
