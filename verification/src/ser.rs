//! The canonical text form of a grid view and its content hash. Items are
//! emitted in identifier-sorted order and grid cells row-major, so two views
//! are equal exactly when their serializations are equal; the hash is a
//! 64-bit Fowler-Noll-Vo fold over the serialization, so it is a pure
//! function of the view and the same in every process.

use vstd::prelude::*;
use crate::model::GridModel;
use crate::model::NodeModel;
use crate::model::cell_owner;
use crate::text::dec_str;

verus! {

/// A single space.
pub open spec fn sp() -> Seq<char> {
    seq![' ']
}

/// A single line break.
pub open spec fn nl() -> Seq<char> {
    seq!['\n']
}

/// A length-prefixed identifier: its length in characters, a space, and the
/// characters themselves.
pub open spec fn ser_id(id: Seq<char>) -> Seq<char> {
    dec_str(id.len() as int) + sp() + id
}

/// One item line: the identifier and the four coordinates, space-separated.
pub open spec fn ser_node(n: NodeModel) -> Seq<char> {
    ser_id(n.id) + sp() + dec_str(n.x) + sp() + dec_str(n.y) + sp() + dec_str(n.w) + sp()
        + dec_str(n.h) + nl()
}

/// The item lines from position `i` on.
pub open spec fn ser_items(items: Seq<NodeModel>, i: int) -> Seq<char>
    decreases items.len() - i,
{
    if i >= items.len() {
        Seq::empty()
    } else {
        ser_node(items[i]) + ser_items(items, i + 1)
    }
}

/// One cell: a dot when empty, otherwise a hash mark and the covering
/// identifier.
pub open spec fn ser_cell(o: Option<Seq<char>>) -> Seq<char> {
    match o {
        None => seq!['.'],
        Some(id) => seq!['#'] + ser_id(id),
    }
}

/// The grid cells row-major from row `r`, column `c` on, one line per row.
pub open spec fn ser_cells(items: Seq<NodeModel>, rows: int, cols: int, r: int, c: int) -> Seq<
    char,
>
    decreases rows - r, cols - c,
        when 0 <= r <= rows && 0 <= c <= cols
{
    if r >= rows {
        Seq::empty()
    } else if c >= cols {
        nl() + ser_cells(items, rows, cols, r + 1, 0)
    } else {
        ser_cell(cell_owner(items, c, r)) + ser_cells(items, rows, cols, r, c + 1)
    }
}

/// The header line: the tag, the dimensions and the item count.
pub open spec fn ser_header(rows: int, cols: int, n: int) -> Seq<char> {
    seq!['G', 'V'] + sp() + dec_str(rows) + sp() + dec_str(cols) + sp() + dec_str(n) + nl()
}

/// The whole canonical form of a grid view.
pub open spec fn ser_view(m: GridModel) -> Seq<char> {
    ser_header(m.rows, m.cols, m.items.len() as int) + ser_items(m.items, 0)
        + ser_cells(m.items, m.rows, m.cols, 0, 0)
}

/// One step of the Fowler-Noll-Vo fold: mix one character into the state.
pub open spec fn fnv_step(h: u64, c: char) -> u64 {
    (((h ^ ((c as u32) as u64)) as nat * 0x100000001b3nat) % 0x10000000000000000nat) as u64
}

/// The Fowler-Noll-Vo fold over the characters from position `i` on.
pub open spec fn fnv_from(s: Seq<char>, i: int, h: u64) -> u64
    decreases s.len() - i,
{
    if i >= s.len() {
        h
    } else {
        fnv_from(s, i + 1, fnv_step(h, s[i]))
    }
}

/// The 64-bit Fowler-Noll-Vo hash of a character sequence.
pub open spec fn fnv64(s: Seq<char>) -> u64 {
    fnv_from(s, 0, 0xcbf29ce484222325u64)
}

/// The content hash of a grid view, rendered in decimal.
pub open spec fn hash_str(m: GridModel) -> Seq<char> {
    dec_str(fnv64(ser_view(m)) as int)
}

/// Appends a single space.
pub fn push_sp(s: &mut String)
    ensures
        final(s)@ == old(s)@ + sp(),
{
    proof {
        reveal_strlit(" ");
    }
    s.append(" ");
}

/// Appends a single line break.
pub fn push_nl(s: &mut String)
    ensures
        final(s)@ == old(s)@ + nl(),
{
    proof {
        reveal_strlit("\n");
    }
    s.append("\n");
}

/// Appends a length-prefixed identifier.
pub fn push_id(s: &mut String, id: &String)
    ensures
        final(s)@ == old(s)@ + ser_id(id@),
{
    let n = id.as_str().unicode_len();
    crate::text::push_dec(s, n as u64);
    push_sp(s);
    s.append(id.as_str());
    proof {
        assert(s@ =~= old(s)@ + ser_id(id@));
    }
}

/// Appends one item line.
pub fn push_node(s: &mut String, n: &crate::grid_engine::Node)
    ensures
        final(s)@ == old(s)@ + ser_node(n@),
{
    push_id(s, &n.id);
    push_sp(s);
    crate::text::push_dec(s, n.x as u64);
    push_sp(s);
    crate::text::push_dec(s, n.y as u64);
    push_sp(s);
    crate::text::push_dec(s, n.w as u64);
    push_sp(s);
    crate::text::push_dec(s, n.h as u64);
    push_nl(s);
    proof {
        assert(s@ =~= old(s)@ + ser_node(n@));
    }
}


/// The cells section of the canonical form: the grid row-major, one line
/// per row, appended to the given string.
pub fn push_cells(s: &mut String, rows: usize, cols: usize, items: &Vec<
    crate::grid_engine::Node,
>)
    ensures
        final(s)@ == old(s)@ + ser_cells(
            crate::grid_engine::nodes_view(items@),
            rows as int,
            cols as int,
            0,
            0,
        ),
{
    let ghost its = crate::grid_engine::nodes_view(items@);
    let ghost after_items = s@;
    let mut rr: usize = 0;
    while rr < rows
        invariant
            rr <= rows,
            its == crate::grid_engine::nodes_view(items@),
            after_items + ser_cells(its, rows as int, cols as int, 0, 0)
                == s@ + ser_cells(its, rows as int, cols as int, rr as int, 0),
        decreases rows - rr,
    {
        let mut cc: usize = 0;
        while cc < cols
            invariant
                rr < rows,
                cc <= cols,
                its == crate::grid_engine::nodes_view(items@),
                after_items + ser_cells(its, rows as int, cols as int, 0, 0)
                    == s@ + ser_cells(its, rows as int, cols as int, rr as int, cc as int),
            decreases cols - cc,
        {
            let ghost before = s@;
            let owner = crate::grid_engine::owner_at(items, cc, rr);
            match owner {
                None => {
                    proof {
                        reveal_strlit(".");
                    }
                    s.append(".");
                    proof {
                        assert("."@ =~= seq!['.']);
                    }
                },
                Some(id) => {
                    proof {
                        reveal_strlit("#");
                    }
                    s.append("#");
                    proof {
                        assert("#"@ =~= seq!['#']);
                    }
                    push_id(s, &id);
                },
            }
            proof {
                assert(s@ =~= before + ser_cell(cell_owner(its, cc as int, rr as int)));
                assert(ser_cells(its, rows as int, cols as int, rr as int, cc as int)
                    =~= ser_cell(cell_owner(its, cc as int, rr as int))
                        + ser_cells(its, rows as int, cols as int, rr as int, cc + 1));
            }
            cc = cc + 1;
        }
        push_nl(s);
        proof {
            assert(ser_cells(its, rows as int, cols as int, rr as int, cols as int)
                =~= nl() + ser_cells(its, rows as int, cols as int, rr + 1, 0));
        }
        rr = rr + 1;
    }
    proof {
        assert(ser_cells(its, rows as int, cols as int, rows as int, 0) =~= Seq::<char>::empty());
        assert(s@ =~= after_items + ser_cells(its, rows as int, cols as int, 0, 0));
    }
}

/// The canonical text form of a grid view, built from its parts.
pub fn serialize_view(rows: usize, cols: usize, items: &Vec<crate::grid_engine::Node>) -> (r:
    String)
    ensures
        r@ == ser_view(
            GridModel {
                rows: rows as int,
                cols: cols as int,
                items: crate::grid_engine::nodes_view(items@),
            },
        ),
{
    let ghost m = GridModel {
        rows: rows as int,
        cols: cols as int,
        items: crate::grid_engine::nodes_view(items@),
    };
    let mut s = String::new();
    proof {
        reveal_strlit("GV");
    }
    s.append("GV");
    proof {
        assert("GV"@ =~= seq!['G', 'V']);
    }
    push_sp(&mut s);
    crate::text::push_dec(&mut s, rows as u64);
    push_sp(&mut s);
    crate::text::push_dec(&mut s, cols as u64);
    push_sp(&mut s);
    crate::text::push_dec(&mut s, items.len() as u64);
    push_nl(&mut s);
    proof {
        assert(s@ =~= ser_header(m.rows, m.cols, m.items.len() as int));
    }
    let ghost after_header = s@;
    let mut i: usize = 0;
    while i < items.len()
        invariant
            i <= items@.len(),
            m.items == crate::grid_engine::nodes_view(items@),
            m.items.len() == items@.len(),
            after_header + ser_items(m.items, 0) == s@ + ser_items(m.items, i as int),
        decreases items@.len() - i,
    {
        let ghost before = s@;
        push_node(&mut s, &items[i]);
        proof {
            assert(ser_items(m.items, i as int)
                =~= ser_node(m.items[i as int]) + ser_items(m.items, i + 1));
            assert(after_header + ser_items(m.items, 0) =~= s@ + ser_items(m.items, i + 1));
        }
        i = i + 1;
    }
    proof {
        assert(ser_items(m.items, items@.len() as int) =~= Seq::<char>::empty());
        assert(s@ =~= after_header + ser_items(m.items, 0));
    }
    push_cells(&mut s, rows, cols, items);
    proof {
        assert(s@ =~= ser_view(m));
    }
    s
}

/// The Fowler-Noll-Vo hash of a string's characters.
pub fn fnv_exec(s: &String) -> (r: u64)
    ensures
        r == fnv64(s@),
{
    let t = s.as_str();
    let len = t.unicode_len();
    let mut h: u64 = 0xcbf29ce484222325u64;
    let mut i: usize = 0;
    while i < len
        invariant
            i <= len,
            len == t@.len(),
            t@ == s@,
            fnv64(s@) == fnv_from(s@, i as int, h),
        decreases len - i,
    {
        let c = t.get_char(i);
        assert(c == s@[i as int]);
        h = (h ^ ((c as u32) as u64)).wrapping_mul(0x100000001b3u64);
        i = i + 1;
    }
    h
}

/// The content hash of a grid view, rendered in decimal.
pub fn hash_view(rows: usize, cols: usize, items: &Vec<crate::grid_engine::Node>) -> (r: String)
    ensures
        r@ == hash_str(
            GridModel {
                rows: rows as int,
                cols: cols as int,
                items: crate::grid_engine::nodes_view(items@),
            },
        ),
{
    let serialized = serialize_view(rows, cols, items);
    let h = fnv_exec(&serialized);
    crate::text::dec_string(h)
}


/// The content hash is a pure function of the view: it is computed from the
/// canonical serialization alone, so equal views hash equally in every
/// process.
pub proof fn lemma_hash_pure(a: GridModel, b: GridModel)
    requires
        ser_view(a) == ser_view(b),
    ensures
        hash_str(a) == hash_str(b),
{
}

} // verus!
