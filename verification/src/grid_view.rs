//! The grid view: an immutable snapshot of the engine's state with its
//! canonical serialization, its content hash, and a human-readable
//! rendering with row and column gutters.

use vstd::prelude::*;
use crate::grid_engine::Node;
use crate::grid_engine::clone_nodes;
use crate::grid_engine::nodes_view;
use crate::grid_engine::owner_at;
use crate::model::GridModel;
use crate::model::NodeModel;
use crate::model::cell_owner;
use crate::ser::hash_str;
use crate::ser::nl;
use crate::ser::push_nl;
use crate::ser::push_sp;
use crate::ser::ser_view;
use crate::ser::sp;
use crate::text::dec_str;

verus! {

/// A row gutter: the row number, zero-padded to two characters.
pub open spec fn pad2(n: int) -> Seq<char> {
    if n < 10 {
        seq!['0'] + dec_str(n)
    } else {
        dec_str(n)
    }
}

/// One rendered cell: the covering identifier in brackets, or a blank pair
/// of brackets.
pub open spec fn fmt_cell(o: Option<Seq<char>>) -> Seq<char> {
    match o {
        None => seq!['[', ' ', ']'],
        Some(id) => seq!['['] + id + seq![']'],
    }
}

/// The rendered cells of row `r` from column `c` on.
pub open spec fn fmt_row(items: Seq<NodeModel>, cols: int, r: int, c: int) -> Seq<char>
    decreases cols - c,
        when 0 <= c <= cols
{
    if c >= cols {
        Seq::empty()
    } else {
        fmt_cell(cell_owner(items, c, r)) + fmt_row(items, cols, r, c + 1)
    }
}

/// The rendered rows from row `r` on, each with its gutter.
pub open spec fn fmt_rows(items: Seq<NodeModel>, rows: int, cols: int, r: int) -> Seq<char>
    decreases rows - r,
        when 0 <= r <= rows
{
    if r >= rows {
        Seq::empty()
    } else {
        pad2(r) + fmt_row(items, cols, r, 0) + nl() + fmt_rows(items, rows, cols, r + 1)
    }
}

/// The column header from column `i` on.
pub open spec fn fmt_header(cols: int, i: int) -> Seq<char>
    decreases cols - i,
        when 0 <= i <= cols
{
    if i >= cols {
        nl()
    } else {
        sp() + dec_str(i) + sp() + fmt_header(cols, i + 1)
    }
}

/// The whole rendering of a grid view.
pub open spec fn fmt_view(m: GridModel) -> Seq<char> {
    seq![' ', ' '] + fmt_header(m.cols, 0) + fmt_rows(m.items, m.rows, m.cols, 0)
}

/// An immutable snapshot of a grid engine's state.
#[derive(Debug)]
pub struct GridView {
    pub rows: usize,
    pub cols: usize,
    pub items: Vec<Node>,
}

impl View for GridView {
    type V = GridModel;

    open spec fn view(&self) -> GridModel {
        GridModel {
            rows: self.rows as int,
            cols: self.cols as int,
            items: nodes_view(self.items@),
        }
    }
}

impl Clone for GridView {
    fn clone(&self) -> (r: GridView)
        ensures
            r@ == self@,
    {
        GridView { rows: self.rows, cols: self.cols, items: clone_nodes(&self.items) }
    }
}

impl GridView {
    /// A snapshot of the given engine's state.
    pub fn new(grid_engine: &crate::grid_engine::GridEngine) -> (r: GridView)
        ensures
            r@ == grid_engine@,
    {
        grid_engine.get_grid_view()
    }

    /// Builds a view from its parts.
    pub fn from_parts(rows: usize, cols: usize, items: Vec<Node>) -> (r: GridView)
        ensures
            r@ == (GridModel {
                rows: rows as int,
                cols: cols as int,
                items: nodes_view(items@),
            }),
    {
        GridView { rows, cols, items }
    }

    /// The stored rectangles, sorted by identifier.
    pub fn get_nodes(&self) -> (r: Vec<Node>)
        ensures
            nodes_view(r@) == self@.items,
    {
        clone_nodes(&self.items)
    }

    /// The canonical text form of this view: the dimensions, the items in
    /// identifier order, and the cells row-major.
    pub fn serialized_as_str(&self) -> (r: String)
        ensures
            r@ == ser_view(self@),
    {
        crate::ser::serialize_view(self.rows, self.cols, &self.items)
    }

    /// The content hash of this view: a pure function of the view itself,
    /// the same in every process.
    pub fn hash(&self) -> (r: String)
        ensures
            r@ == hash_str(self@),
    {
        crate::ser::hash_view(self.rows, self.cols, &self.items)
    }

    /// The human-readable rendering of this view, with row and column
    /// gutters.
    pub fn get_grid_formatted(&self) -> (r: String)
        ensures
            r@ == fmt_view(self@),
    {
        let ghost m = self@;
        let mut s = String::new();
        push_sp(&mut s);
        push_sp(&mut s);
        proof {
            assert(s@ =~= seq![' ', ' ']);
        }
        let mut i: usize = 0;
        let ghost after_pad = s@;
        while i < self.cols
            invariant
                i <= self.cols,
                m == self@,
                m.cols == self.cols as int,
                after_pad + fmt_header(m.cols, 0) == s@ + fmt_header(m.cols, i as int),
            decreases self.cols - i,
        {
            let ghost before = s@;
            push_sp(&mut s);
            crate::text::push_dec(&mut s, i as u64);
            push_sp(&mut s);
            proof {
                assert(s@ =~= before + (sp() + dec_str(i as int) + sp()));
                assert(fmt_header(m.cols, i as int)
                    =~= sp() + dec_str(i as int) + sp() + fmt_header(m.cols, i + 1));
                assert(after_pad + fmt_header(m.cols, 0) =~= s@ + fmt_header(m.cols, i + 1));
            }
            i = i + 1;
        }
        push_nl(&mut s);
        proof {
            assert(fmt_header(m.cols, m.cols) =~= nl());
            assert(s@ =~= after_pad + fmt_header(m.cols, 0));
        }
        let ghost after_header = s@;
        let mut rr: usize = 0;
        while rr < self.rows
            invariant
                rr <= self.rows,
                m == self@,
                m.rows == self.rows as int,
                m.cols == self.cols as int,
                m.items == nodes_view(self.items@),
                after_header + fmt_rows(m.items, m.rows, m.cols, 0)
                    == s@ + fmt_rows(m.items, m.rows, m.cols, rr as int),
            decreases self.rows - rr,
        {
            let ghost row_start = s@;
            if rr < 10 {
                proof {
                    reveal_strlit("0");
                }
                s.append("0");
                proof {
                    assert("0"@ =~= seq!['0']);
                }
            }
            crate::text::push_dec(&mut s, rr as u64);
            proof {
                assert(s@ =~= row_start + pad2(rr as int));
            }
            let mut cc: usize = 0;
            let ghost cells_start = s@;
            while cc < self.cols
                invariant
                    rr < self.rows,
                    cc <= self.cols,
                    m == self@,
                    m.rows == self.rows as int,
                    m.cols == self.cols as int,
                    m.items == nodes_view(self.items@),
                    cells_start + fmt_row(m.items, m.cols, rr as int, 0)
                        == s@ + fmt_row(m.items, m.cols, rr as int, cc as int),
                decreases self.cols - cc,
            {
                let ghost before = s@;
                let owner = owner_at(&self.items, cc, rr);
                proof {
                    reveal_strlit("[");
                    reveal_strlit("]");
                    reveal_strlit("[ ]");
                }
                match owner {
                    None => {
                        s.append("[ ]");
                        proof {
                            assert("[ ]"@ =~= seq!['[', ' ', ']']);
                        }
                    },
                    Some(id) => {
                        s.append("[");
                        s.append(id.as_str());
                        s.append("]");
                        proof {
                            assert("["@ =~= seq!['[']);
                            assert("]"@ =~= seq![']']);
                        }
                    },
                }
                proof {
                    assert(s@ =~= before + fmt_cell(cell_owner(m.items, cc as int, rr as int)));
                    assert(fmt_row(m.items, m.cols, rr as int, cc as int)
                        =~= fmt_cell(cell_owner(m.items, cc as int, rr as int))
                            + fmt_row(m.items, m.cols, rr as int, cc + 1));
                    assert(cells_start + fmt_row(m.items, m.cols, rr as int, 0)
                        =~= s@ + fmt_row(m.items, m.cols, rr as int, cc + 1));
                }
                cc = cc + 1;
            }
            push_nl(&mut s);
            proof {
                assert(fmt_row(m.items, m.cols, rr as int, m.cols) =~= Seq::<char>::empty());
                assert(s@ =~= row_start + (pad2(rr as int)
                    + fmt_row(m.items, m.cols, rr as int, 0) + nl()));
                assert(fmt_rows(m.items, m.rows, m.cols, rr as int)
                    =~= pad2(rr as int) + fmt_row(m.items, m.cols, rr as int, 0) + nl()
                        + fmt_rows(m.items, m.rows, m.cols, rr + 1));
                assert(after_header + fmt_rows(m.items, m.rows, m.cols, 0)
                    =~= s@ + fmt_rows(m.items, m.rows, m.cols, rr + 1));
            }
            rr = rr + 1;
        }
        proof {
            assert(fmt_rows(m.items, m.rows, m.cols, m.rows) =~= Seq::<char>::empty());
            assert(s@ =~= after_header + fmt_rows(m.items, m.rows, m.cols, 0));
            assert(s@ =~= fmt_view(m));
        }
        s
    }

    /// Prints the rendering of this view.
    pub fn print_grid(&self) {
        let s = self.get_grid_formatted();
        crate::logger::print_line(s.as_str());
    }
}

} // verus!
