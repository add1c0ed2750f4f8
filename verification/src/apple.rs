//! Apple Taiwan pages: link discovery, lossless specification extraction and official prices.
use vstd::prelude::*;
use crate::dom::{attr_spec, cut_between, has_class, has_token, is_anc, node_text, own_text, spec_select, subtree_end, DomNode};
use crate::models::Block;
use crate::pattern::spec_regex_find_all;
use crate::text::{all_space, clean_spec, trim_spec};

pub use crate::text::clean;

verus! {

/// A block before numbering: section, model hint, context and text.
pub type PieceV = (Seq<char>, Option<Seq<char>>, Seq<char>, Seq<char>);

/// The characters of an optional string.
pub open spec fn opt_view(o: Option<String>) -> Option<Seq<char>> {
    match o {
        Some(s) => Some(s@),
        None => None,
    }
}

/// The unnumbered content of a block.
pub open spec fn piece_of(b: Block) -> PieceV {
    (b.section@, opt_view(b.model_hint), b.context@, b.text@)
}

/// The unnumbered contents of blocks.
pub open spec fn pieces_of(bs: Seq<Block>) -> Seq<PieceV> {
    bs.map_values(|b: Block| piece_of(b))
}

/// The selector results a page is read with, one flag per node.
pub struct MaskView {
    /// `.techspecs-row, tr`
    pub rows: Seq<bool>,
    /// `.techspecs-rowheader, [role=rowheader], th`
    pub rowheader: Seq<bool>,
    /// `[role=columnheader], .techspecs-header-row h2`
    pub colheader: Seq<bool>,
    /// `.techspecs-column, td`
    pub cells: Seq<bool>,
    /// `main section`
    pub sections: Seq<bool>,
    /// `h2, h3`
    pub headings: Seq<bool>,
    /// `.grid-container > .grid-item`
    pub grid: Seq<bool>,
    /// `.ac-gf-sosumi li`
    pub footnotes: Seq<bool>,
}

/// The flags of a selector, or none when it does not parse.
pub open spec fn mask_of(html: Seq<char>, css: Seq<char>) -> Seq<bool> {
    match spec_select(html, css) {
        Some(m) => m,
        None => Seq::empty(),
    }
}

/// The selector results of the page `html`.
pub open spec fn html_masks(html: Seq<char>) -> MaskView {
    MaskView {
        rows: mask_of(html, ".techspecs-row, tr"@),
        rowheader: mask_of(html, ".techspecs-rowheader, [role=rowheader], th"@),
        colheader: mask_of(html, "[role=columnheader], .techspecs-header-row h2"@),
        cells: mask_of(html, ".techspecs-column, td"@),
        sections: mask_of(html, "main section"@),
        headings: mask_of(html, "h2, h3"@),
        grid: mask_of(html, ".grid-container > .grid-item"@),
        footnotes: mask_of(html, ".ac-gf-sosumi li"@),
    }
}

/// Whether node `k` is selected.
pub open spec fn sel(m: Seq<bool>, k: int) -> bool {
    0 <= k < m.len() && m[k]
}

/// The selected nodes among `lo..hi`, in document order.
pub open spec fn hits(m: Seq<bool>, lo: int, hi: int) -> Seq<int>
    decreases hi - lo,
{
    if hi <= lo {
        Seq::empty()
    } else {
        hits(m, lo, hi - 1) + (if sel(m, hi - 1) {
            seq![hi - 1]
        } else {
            Seq::empty()
        })
    }
}

/// The selected nodes strictly inside `root`'s subtree and before `hi`, outside cut-out subtrees.
pub open spec fn own_hits(nodes: Seq<DomNode>, cuts: Seq<bool>, root: int, m: Seq<bool>, hi: int) -> Seq<int>
    decreases hi - root,
{
    if hi <= root + 1 {
        Seq::empty()
    } else {
        own_hits(nodes, cuts, root, m, hi - 1) + (if sel(m, hi - 1) && !cut_between(
            nodes,
            cuts,
            root,
            hi - 1,
        ) {
            seq![hi - 1]
        } else {
            Seq::empty()
        })
    }
}

/// A row inside a column-header row of a specification table.
pub open spec fn under_header_row(nodes: Seq<DomNode>, r: int) -> bool {
    exists|a: int| #[trigger] is_anc(nodes, a, r) && has_class(nodes[a], "techspecs-header-row"@)
}

/// The containers a row's column headers are looked up in.
pub open spec fn table_like(n: DomNode) -> bool {
    (match attr_spec(n, "role"@) {
        Some(v) => has_token(v, "table"@, true),
        None => false,
    }) || n.name@ == "table"@ || has_class(n, "techspecs"@)
}

/// Tab panels, whose labels give rows their context.
pub open spec fn tab_panel(n: DomNode) -> bool {
    attr_spec(n, "role"@) == Some("tabpanel"@)
}

/// The nearest ancestor of `r` at or before `j` that is table-like (`panel == false`) or a
/// tab panel (`panel == true`); -1 when there is none.
pub open spec fn nearest(nodes: Seq<DomNode>, r: int, j: int, panel: bool) -> int
    decreases j + 1,
{
    if j < 0 {
        -1
    } else if is_anc(nodes, j, r) && (if panel { tab_panel(nodes[j]) } else { table_like(nodes[j]) }) {
        j
    } else {
        nearest(nodes, r, j - 1, panel)
    }
}

/// The texts of the given nodes.
pub open spec fn texts_of(nodes: Seq<DomNode>, idx: Seq<int>) -> Seq<Seq<char>> {
    idx.map_values(|k: int| node_text(nodes, k))
}

/// The texts that are not blank.
pub open spec fn non_blank(ts: Seq<Seq<char>>) -> Seq<Seq<char>>
    decreases ts.len(),
{
    if ts.len() == 0 {
        Seq::empty()
    } else {
        non_blank(ts.drop_last()) + (if all_space(ts.last()) {
            Seq::empty()
        } else {
            seq![ts.last()]
        })
    }
}

/// The column headers of row `r`'s table.
pub open spec fn row_headers(nodes: Seq<DomNode>, m: MaskView, r: int) -> Seq<Seq<char>> {
    let t = nearest(nodes, r, r - 1, false);
    if t < 0 {
        Seq::empty()
    } else {
        non_blank(texts_of(nodes, hits(m.colheader, t + 1, subtree_end(nodes, t))))
    }
}

/// The label of the tab panel row `r` belongs to, if any.
pub open spec fn row_context(nodes: Seq<DomNode>, r: int) -> Seq<char> {
    let p = nearest(nodes, r, r - 1, true);
    if p < 0 {
        Seq::empty()
    } else {
        match attr_spec(nodes[p], "aria-labelledby"@) {
            Some(v) => v,
            None => Seq::empty(),
        }
    }
}

/// The section name of row `r`: its first row header, or a placeholder.
pub open spec fn row_section(nodes: Seq<DomNode>, m: MaskView, r: int) -> Seq<char> {
    let hs = hits(m.rowheader, r + 1, subtree_end(nodes, r));
    if hs.len() > 0 {
        node_text(nodes, hs[0])
    } else {
        "其他規格"@
    }
}

/// A cell spanning exactly one column.
pub open spec fn single_column(n: DomNode) -> bool {
    (match attr_spec(n, "aria-colspan"@) {
        Some(v) => v == "1"@,
        None => true,
    }) && (match attr_spec(n, "colspan"@) {
        Some(v) => v == "1"@,
        None => true,
    })
}

/// The model hint of the `i`-th cell: its column header, only when headers and cells line
/// up one to one and the cell spans a single column.
pub open spec fn cell_hint(
    nodes: Seq<DomNode>,
    cells: Seq<int>,
    i: int,
    headers: Seq<Seq<char>>,
    context: Seq<char>,
) -> Option<Seq<char>> {
    if headers.len() == cells.len() && single_column(nodes[cells[i]]) {
        Some(trim_spec(context + " "@ + headers[i]))
    } else {
        None
    }
}

/// The blocks of the first `i` cells of a row; empty cells give none.
pub open spec fn cell_pieces(
    nodes: Seq<DomNode>,
    cells: Seq<int>,
    i: int,
    headers: Seq<Seq<char>>,
    context: Seq<char>,
    section: Seq<char>,
) -> Seq<PieceV>
    decreases i,
{
    if i <= 0 {
        Seq::empty()
    } else {
        let t = node_text(nodes, cells[i - 1]);
        cell_pieces(nodes, cells, i - 1, headers, context, section) + (if t.len() == 0 {
            Seq::empty()
        } else {
            seq![(section, cell_hint(nodes, cells, i - 1, headers, context), context, t)]
        })
    }
}

/// The blocks of specification row `r`.
pub open spec fn row_pieces(nodes: Seq<DomNode>, m: MaskView, r: int) -> Seq<PieceV> {
    if under_header_row(nodes, r) {
        Seq::empty()
    } else {
        let cells = hits(m.cells, r + 1, subtree_end(nodes, r));
        cell_pieces(
            nodes,
            cells,
            cells.len() as int,
            row_headers(nodes, m, r),
            row_context(nodes, r),
            row_section(nodes, m, r),
        )
    }
}

/// The blocks of the given rows, in order.
pub open spec fn rows_pieces(nodes: Seq<DomNode>, m: MaskView, rows: Seq<int>) -> Seq<PieceV>
    decreases rows.len(),
{
    if rows.len() == 0 {
        Seq::empty()
    } else {
        rows_pieces(nodes, m, rows.drop_last()) + row_pieces(nodes, m, rows.last())
    }
}

/// Nodes whose content belongs to them rather than to an enclosing section.
pub open spec fn section_cut(n: DomNode) -> bool {
    n.name@ == "section"@ || table_like(n)
}

/// Cut-out flags for section text: nested sections and tables.
pub open spec fn section_cuts(nodes: Seq<DomNode>) -> Seq<bool> {
    Seq::new(nodes.len(), |k: int| section_cut(nodes[k]))
}

/// The pattern of port-count model names in grid layouts.
pub open spec fn model_pattern() -> Seq<char> {
    "[0-9]+ 個連接埠機型(?: [0-9]+)?"@
}

/// The text names a port-count model.
pub open spec fn labelled(t: Seq<char>) -> bool {
    match spec_regex_find_all(model_pattern(), t) {
        Some(ms) => ms.len() > 0,
        None => false,
    }
}

/// The model named in `t`, when exactly one distinct model name occurs.
pub open spec fn single_label(t: Seq<char>) -> Option<Seq<char>> {
    match spec_regex_find_all(model_pattern(), t) {
        Some(ms) => if ms.len() > 0 && (forall|i: int| 0 <= i < ms.len() ==> #[trigger] ms[i] == ms[0]) {
            Some(ms[0])
        } else {
            None
        },
        None => None,
    }
}

/// The blocks of a labelled grid: one per non-empty cell.
pub open spec fn grid_pieces(nodes: Seq<DomNode>, grid: Seq<int>, title: Seq<char>) -> Seq<PieceV>
    decreases grid.len(),
{
    if grid.len() == 0 {
        Seq::empty()
    } else {
        let t = node_text(nodes, grid.last());
        grid_pieces(nodes, grid.drop_last(), title) + (if t.len() == 0 {
            Seq::empty()
        } else {
            seq![(title, single_label(t), "source-labelled-grid"@, t)]
        })
    }
}

/// Some grid cell names a port-count model.
pub open spec fn any_labelled(nodes: Seq<DomNode>, grid: Seq<int>) -> bool {
    exists|i: int| 0 <= i < grid.len() && labelled(#[trigger] node_text(nodes, grid[i]))
}

/// The blocks of section `s` from its own content (nested sections and tables excluded):
/// none when it is empty or only its title, one per cell for a labelled grid, otherwise one.
pub open spec fn section_pieces(nodes: Seq<DomNode>, m: MaskView, s: int) -> Seq<PieceV> {
    let cuts = section_cuts(nodes);
    let value = own_text(nodes, cuts, s);
    let end = subtree_end(nodes, s);
    let hs = own_hits(nodes, cuts, s, m.headings, end);
    let title = if hs.len() > 0 { node_text(nodes, hs[0]) } else { "待確認段落"@ };
    let grid = own_hits(nodes, cuts, s, m.grid, end);
    if value.len() == 0 || clean_spec(value) == clean_spec(title) {
        Seq::empty()
    } else if grid.len() > 1 && any_labelled(nodes, grid) {
        grid_pieces(nodes, grid, title)
    } else {
        seq![(title, None, "fallback-section"@, value)]
    }
}

/// The blocks of the given sections, in order.
pub open spec fn sections_pieces(nodes: Seq<DomNode>, m: MaskView, ss: Seq<int>) -> Seq<PieceV>
    decreases ss.len(),
{
    if ss.len() == 0 {
        Seq::empty()
    } else {
        sections_pieces(nodes, m, ss.drop_last()) + section_pieces(nodes, m, ss.last())
    }
}

/// The blocks of the given footnotes; empty ones give none.
pub open spec fn footnote_pieces(nodes: Seq<DomNode>, fs: Seq<int>) -> Seq<PieceV>
    decreases fs.len(),
{
    if fs.len() == 0 {
        Seq::empty()
    } else {
        footnote_pieces(nodes, fs.drop_last()) + footnote_piece(nodes, fs.last())
    }
}

/// The block of footnote `k`, if it has text.
pub open spec fn footnote_piece(nodes: Seq<DomNode>, k: int) -> Seq<PieceV> {
    let t = node_text(nodes, k);
    if t.len() == 0 {
        Seq::empty()
    } else {
        seq![(
            "註腳與限制"@,
            None,
            match attr_spec(nodes[k], "id"@) {
                Some(v) => v,
                None => "footnote"@,
            },
            t,
        )]
    }
}

/// All source blocks of a page before splitting: table cells, then section content, then footnotes.
pub open spec fn page_pieces(nodes: Seq<DomNode>, m: MaskView) -> Seq<PieceV> {
    let n = nodes.len() as int;
    rows_pieces(nodes, m, hits(m.rows, 0, n)) + sections_pieces(nodes, m, hits(m.sections, 0, n))
        + footnote_pieces(nodes, hits(m.footnotes, 0, n))
}

/// Longest block text, in characters.
pub open spec fn max_block_chars() -> nat {
    3500
}

/// `t` cut into consecutive runs of at most 3500 characters.
pub open spec fn chunks(t: Seq<char>) -> Seq<Seq<char>>
    decreases t.len(),
{
    if t.len() == 0 {
        Seq::empty()
    } else if t.len() <= max_block_chars() {
        seq![t]
    } else {
        seq![t.take(max_block_chars() as int)] + chunks(t.skip(max_block_chars() as int))
    }
}

/// Every piece with its text cut into chunks, each chunk keeping the piece's other fields.
pub open spec fn split_pieces(ps: Seq<PieceV>) -> Seq<PieceV>
    decreases ps.len(),
{
    if ps.len() == 0 {
        Seq::empty()
    } else {
        let p = ps.last();
        split_pieces(ps.drop_last()) + chunks(p.3).map_values(|c: Seq<char>| (p.0, p.1, p.2, c))
    }
}

/// Heading `k` (`h2`, `h3`) belongs to the own content of section `s`: inside it, outside the
/// parts cut out of it.
pub open spec fn own_heading(nodes: Seq<DomNode>, m: MaskView, s: int, k: int) -> bool {
    &&& s < k < subtree_end(nodes, s)
    &&& sel(m.headings, k)
    &&& !cut_between(nodes, section_cuts(nodes), s, k)
}

/// The title a section's blocks carry: the text of the first heading of its own content in
/// document order, or `待確認段落` when it has none.
pub open spec fn titled_by_first_heading(nodes: Seq<DomNode>, m: MaskView, s: int, t: Seq<char>) -> bool {
    if exists|k: int| own_heading(nodes, m, s, k) {
        exists|j: int| own_heading(nodes, m, s, j) && (forall|k: int| own_heading(nodes, m, s, k) ==> j <= k)
            && t == node_text(nodes, j)
    } else {
        t == "待確認段落"@
    }
}

proof fn lemma_own_hits_first(nodes: Seq<DomNode>, cuts: Seq<bool>, root: int, m: Seq<bool>, hi: int)
    ensures
        own_hits(nodes, cuts, root, m, hi).len() > 0 <==> exists|k: int| root < k < hi && sel(m, k) && !cut_between(nodes, cuts, root, k),
        own_hits(nodes, cuts, root, m, hi).len() > 0 ==> ({
            let q = own_hits(nodes, cuts, root, m, hi)[0];
            &&& root < q < hi && sel(m, q) && !cut_between(nodes, cuts, root, q)
            &&& forall|k: int| root < k < hi && sel(m, k) && !cut_between(nodes, cuts, root, k) ==> q <= k
        }),
    decreases hi - root,
{
    if hi > root + 1 {
        lemma_own_hits_first(nodes, cuts, root, m, hi - 1);
        let a = own_hits(nodes, cuts, root, m, hi - 1);
        let h = own_hits(nodes, cuts, root, m, hi);
        if a.len() > 0 {
            assert(h[0] == a[0]);
        } else if h.len() > 0 {
            assert(h[0] == hi - 1);
        }
        if exists|k: int| root < k < hi && sel(m, k) && !cut_between(nodes, cuts, root, k) {
            let k = choose|k: int| root < k < hi && sel(m, k) && !cut_between(nodes, cuts, root, k);
            if k < hi - 1 {
                assert(a.len() > 0);
            }
        }
    }
}

proof fn lemma_grid_titles(nodes: Seq<DomNode>, grid: Seq<int>, title: Seq<char>)
    ensures
        forall|i: int| 0 <= i < grid_pieces(nodes, grid, title).len() ==> (#[trigger] grid_pieces(nodes, grid, title)[i]).0 == title,
    decreases grid.len(),
{
    if grid.len() > 0 {
        lemma_grid_titles(nodes, grid.drop_last(), title);
        let a = grid_pieces(nodes, grid.drop_last(), title);
        let p = grid_pieces(nodes, grid, title);
        assert forall|i: int| 0 <= i < p.len() implies (#[trigger] p[i]).0 == title by {
            if i < a.len() {
                assert(p[i] == a[i]);
            }
        }
    }
}

/// Every block a section gives (a fallback section or the cells of its labelled grid) carries
/// as its section the text of the section's first own heading in document order, or
/// `待確認段落` when it has none.
pub proof fn law_section_titles(nodes: Seq<DomNode>, m: MaskView, s: int)
    ensures
        forall|i: int| 0 <= i < section_pieces(nodes, m, s).len() ==> titled_by_first_heading(nodes, m, s, (#[trigger] section_pieces(nodes, m, s)[i]).0),
{
    let cuts = section_cuts(nodes);
    let end = subtree_end(nodes, s);
    lemma_own_hits_first(nodes, cuts, s, m.headings, end);
    let hs = own_hits(nodes, cuts, s, m.headings, end);
    let heading = if hs.len() > 0 { node_text(nodes, hs[0]) } else { "待確認段落"@ };
    assert(titled_by_first_heading(nodes, m, s, heading)) by {
        if hs.len() > 0 {
            assert(own_heading(nodes, m, s, hs[0]));
        } else {
            assert(!exists|k: int| own_heading(nodes, m, s, k));
        }
    }
    lemma_grid_titles(nodes, own_hits(nodes, cuts, s, m.grid, end), heading);
}

} // verus!

verus! {

use crate::dom::{lemma_laminar, lemma_scan_end, Page, cut_at, has_class_exec, attr, has_token_exec};

/// Node indices as integers.
pub open spec fn idx(v: Seq<usize>) -> Seq<int> {
    v.map_values(|x: usize| x as int)
}

/// Selected nodes lie in the range they were looked for in.
pub proof fn lemma_hits_range(m: Seq<bool>, lo: int, hi: int)
    ensures
        forall|k: int| 0 <= k < hits(m, lo, hi).len() ==> lo <= #[trigger] hits(m, lo, hi)[k] < hi,
    decreases hi - lo,
{
    if hi > lo {
        lemma_hits_range(m, lo, hi - 1);
        let a = hits(m, lo, hi - 1);
        assert forall|k: int| 0 <= k < hits(m, lo, hi).len() implies lo <= #[trigger] hits(m, lo, hi)[k] < hi by {
            if k < a.len() {
                assert(hits(m, lo, hi)[k] == a[k]);
            }
        }
    }
}

fn sel_exec(m: &Vec<bool>, k: usize) -> (r: bool)
    ensures
        r == sel(m@, k as int),
{
    k < m.len() && m[k]
}

/// The selected nodes among `lo..hi`.
pub fn hits_exec(m: &Vec<bool>, lo: usize, hi: usize) -> (r: Vec<usize>)
    ensures
        idx(r@) == hits(m@, lo as int, hi as int),
{
    let mut out: Vec<usize> = Vec::new();
    let mut k = lo;
    if hi <= lo {
        proof {
            assert(idx(out@) =~= hits(m@, lo as int, hi as int));
        }
        return out;
    }
    proof {
        assert(idx(out@) =~= hits(m@, lo as int, lo as int));
    }
    while k < hi
        invariant
            lo <= k <= hi,
            idx(out@) == hits(m@, lo as int, k as int),
        decreases hi - k,
    {
        let ghost before = out@;
        if sel_exec(m, k) {
            out.push(k);
        }
        proof {
            assert(idx(out@) =~= hits(m@, lo as int, k + 1));
        }
        k += 1;
    }
    out
}

proof fn lemma_own_hits_skip(nodes: Seq<DomNode>, cuts: Seq<bool>, root: int, m: Seq<bool>, k: int, hi: int)
    requires
        0 <= root < k < nodes.len(),
        cut_at(cuts, k),
        k <= hi <= subtree_end(nodes, k),
    ensures
        own_hits(nodes, cuts, root, m, hi) == own_hits(nodes, cuts, root, m, k),
    decreases hi - k,
{
    if hi > k {
        lemma_own_hits_skip(nodes, cuts, root, m, k, hi - 1);
        let x = hi - 1;
        assert(cut_between(nodes, cuts, root, x)) by {
            assert(root < k <= x);
            assert(cut_at(cuts, k));
            assert(k == x || is_anc(nodes, k, x));
        }
        assert(own_hits(nodes, cuts, root, m, hi) =~= own_hits(nodes, cuts, root, m, hi - 1));
    }
}

/// The selected nodes of `root`'s own content: inside its subtree, outside cut-out subtrees.
pub fn own_hits_exec(page: &Page, cuts: &Vec<bool>, root: usize, m: &Vec<bool>) -> (r: Vec<usize>)
    requires
        page.wf(),
        root < page.nodes@.len(),
    ensures
        idx(r@) == own_hits(page.nodes@, cuts@, root as int, m@, subtree_end(page.nodes@, root as int)),
{
    let ghost nodes = page.nodes@;
    let end = page.ends[root];
    proof {
        lemma_scan_end(nodes, root as int, root + 1);
    }
    let mut out: Vec<usize> = Vec::new();
    let mut k = root + 1;
    proof {
        assert(idx(out@) =~= own_hits(nodes, cuts@, root as int, m@, root + 1));
    }
    while k < end
        invariant
            page.wf(),
            nodes == page.nodes@,
            root < nodes.len(),
            end == subtree_end(nodes, root as int),
            end <= nodes.len(),
            root < k <= end,
            idx(out@) == own_hits(nodes, cuts@, root as int, m@, k as int),
            forall|j: int| root < j < k && cut_at(cuts@, j) ==> #[trigger] subtree_end(nodes, j) <= k,
        decreases end - k,
    {
        if k < cuts.len() && cuts[k] {
            let e = page.ends[k];
            proof {
                lemma_scan_end(nodes, k as int, k + 1);
                lemma_laminar(nodes, root as int, k as int);
                lemma_own_hits_skip(nodes, cuts@, root as int, m@, k as int, e as int);
                assert forall|j: int| root < j < e && cut_at(cuts@, j) implies #[trigger] subtree_end(nodes, j) <= e by {
                    if j > k {
                        lemma_laminar(nodes, k as int, j);
                    }
                }
            }
            k = e;
        } else {
            proof {
                assert(!cut_between(nodes, cuts@, root as int, k as int)) by {
                    if cut_between(nodes, cuts@, root as int, k as int) {
                        let j = choose|j: int| #![trigger cut_at(cuts@, j)] root < j <= k && cut_at(cuts@, j) && (j == k || is_anc(nodes, j, k as int));
                        if j < k {
                            assert(subtree_end(nodes, j) <= k);
                        }
                    }
                }
            }
            if sel_exec(m, k) {
                out.push(k);
            }
            proof {
                assert(idx(out@) =~= own_hits(nodes, cuts@, root as int, m@, k + 1));
            }
            k += 1;
        }
    }
    out
}

fn is_table_like(n: &DomNode) -> (r: bool)
    ensures
        r == table_like(*n),
{
    let role = match attr(n, "role") {
        Some(v) => has_token_exec(v.as_str(), "table", true),
        None => false,
    };
    role || crate::text::str_eq(n.name.as_str(), "table") || has_class_exec(n, "techspecs")
}

fn is_tab_panel(n: &DomNode) -> (r: bool)
    ensures
        r == tab_panel(*n),
{
    match attr(n, "role") {
        Some(v) => {
            let b = crate::text::str_eq(v.as_str(), "tabpanel");
            proof {
                if !b {
                    assert(attr_spec(*n, "role"@) != Some("tabpanel"@));
                }
            }
            b
        },
        None => false,
    }
}

/// The nearest table-like (or tab-panel) ancestor of node `r`.
fn nearest_exec(page: &Page, r: usize, panel: bool) -> (res: Option<usize>)
    requires
        page.wf(),
        r < page.nodes@.len(),
    ensures
        match res {
            Some(j) => nearest(page.nodes@, r as int, r - 1, panel) == j as int && j < r,
            None => nearest(page.nodes@, r as int, r - 1, panel) == -1,
        },
{
    let mut j = r;
    while j > 0
        invariant
            page.wf(),
            r < page.nodes@.len(),
            j <= r,
            nearest(page.nodes@, r as int, r - 1, panel) == nearest(page.nodes@, r as int, j - 1, panel),
        decreases j,
    {
        let c = j - 1;
        let ok = page.ends[c] > r && (if panel { is_tab_panel(&page.nodes[c]) } else { is_table_like(&page.nodes[c]) });
        proof {
            assert(is_anc(page.nodes@, c as int, r as int) == (page.ends@[c as int] > r));
        }
        if ok {
            return Some(c);
        }
        j = c;
    }
    None
}

/// Whether some ancestor of row `r` is a column-header row.
fn under_header_row_exec(page: &Page, r: usize) -> (res: bool)
    requires
        page.wf(),
        r < page.nodes@.len(),
    ensures
        res == under_header_row(page.nodes@, r as int),
{
    let mut a: usize = 0;
    while a < r
        invariant
            page.wf(),
            r < page.nodes@.len(),
            a <= r,
            forall|x: int| 0 <= x < a ==> !(#[trigger] is_anc(page.nodes@, x, r as int) && has_class(page.nodes@[x], "techspecs-header-row"@)),
        decreases r - a,
    {
        proof {
            assert(is_anc(page.nodes@, a as int, r as int) == (page.ends@[a as int] > r));
        }
        if page.ends[a] > r && has_class_exec(&page.nodes[a], "techspecs-header-row") {
            return true;
        }
        a += 1;
    }
    false
}

} // verus!

verus! {

use crate::dom::{node_text_exec, own_text_exec};
use crate::text::{string_from_chars, str_chars, trim_chars, clean_chars, chars_eq};
use crate::models::copy_opt;

/// The selector results of a page, one flag per node.
pub struct Masks {
    pub rows: Vec<bool>,
    pub rowheader: Vec<bool>,
    pub colheader: Vec<bool>,
    pub cells: Vec<bool>,
    pub sections: Vec<bool>,
    pub headings: Vec<bool>,
    pub grid: Vec<bool>,
    pub footnotes: Vec<bool>,
}

impl Masks {
    /// The flags as sequences.
    pub open spec fn view(&self) -> MaskView {
        MaskView {
            rows: self.rows@,
            rowheader: self.rowheader@,
            colheader: self.colheader@,
            cells: self.cells@,
            sections: self.sections@,
            headings: self.headings@,
            grid: self.grid@,
            footnotes: self.footnotes@,
        }
    }
}

/// The characters of each of several character vectors.
pub open spec fn char_views(v: Seq<Vec<char>>) -> Seq<Seq<char>> {
    v.map_values(|x: Vec<char>| x@)
}

fn blank_chars(v: &Vec<char>) -> (r: bool)
    ensures
        r == all_space(v@),
{
    let mut i: usize = 0;
    while i < v.len()
        invariant
            i <= v@.len(),
            forall|k: int| 0 <= k < i ==> crate::text::is_space_spec(#[trigger] v@[k]),
        decreases v.len() - i,
    {
        if !crate::text::is_space(v[i]) {
            return false;
        }
        i += 1;
    }
    true
}

fn row_headers_exec(page: &Page, masks: &Masks, r: usize) -> (h: Vec<Vec<char>>)
    requires
        page.wf(),
        r < page.nodes@.len(),
    ensures
        char_views(h@) == row_headers(page.nodes@, masks.view(), r as int),
{
    let mut out: Vec<Vec<char>> = Vec::new();
    match nearest_exec(page, r, false) {
        None => {
            proof {
                assert(char_views(out@) =~= Seq::<Seq<char>>::empty());
            }
            out
        },
        Some(t) => {
            proof {
                lemma_scan_end(page.nodes@, t as int, t + 1);
            }
            let hs = hits_exec(&masks.colheader, t + 1, page.ends[t]);
            let ghost hv = idx(hs@);
            proof {
                lemma_hits_range(masks.colheader@, t + 1, subtree_end(page.nodes@, t as int));
                assert forall|k: int| 0 <= k < hs@.len() implies #[trigger] hs@[k] < page.nodes@.len() by {
                    assert(hv[k] == hs@[k] as int);
                }
            }
            let mut i: usize = 0;
            proof {
                assert(texts_of(page.nodes@, hv).take(0) =~= Seq::<Seq<char>>::empty());
                assert(char_views(out@) =~= non_blank(texts_of(page.nodes@, hv).take(0)));
            }
            while i < hs.len()
                invariant
                    page.wf(),
                    hv == idx(hs@),
                    hv == hits(masks.colheader@, t + 1, subtree_end(page.nodes@, t as int)),
                    forall|k: int| 0 <= k < hs@.len() ==> #[trigger] hs@[k] < page.nodes@.len(),
                    i <= hs@.len(),
                    char_views(out@) == non_blank(texts_of(page.nodes@, hv).take(i as int)),
                decreases hs.len() - i,
            {
                let txt = node_text_exec(page, hs[i]);
                let ghost ts = texts_of(page.nodes@, hv);
                proof {
                    assert(ts.take(i + 1).drop_last() =~= ts.take(i as int));
                    assert(ts.take(i + 1).last() == txt@);
                }
                if !blank_chars(&txt) {
                    out.push(txt);
                }
                proof {
                    assert(char_views(out@) =~= non_blank(ts.take(i + 1)));
                }
                i += 1;
            }
            proof {
                assert(texts_of(page.nodes@, hv).take(hs@.len() as int) =~= texts_of(page.nodes@, hv));
            }
            out
        },
    }
}

} // verus!

verus! {

fn row_context_exec(page: &Page, r: usize) -> (c: Vec<char>)
    requires
        page.wf(),
        r < page.nodes@.len(),
    ensures
        c@ == row_context(page.nodes@, r as int),
{
    match nearest_exec(page, r, true) {
        None => Vec::new(),
        Some(p) => match attr(&page.nodes[p], "aria-labelledby") {
            Some(v) => str_chars(v.as_str()),
            None => Vec::new(),
        },
    }
}

fn row_section_exec(page: &Page, masks: &Masks, r: usize) -> (s: Vec<char>)
    requires
        page.wf(),
        r < page.nodes@.len(),
    ensures
        s@ == row_section(page.nodes@, masks.view(), r as int),
{
    let _total = page.nodes.len();
    proof {
        lemma_scan_end(page.nodes@, r as int, r + 1);
        lemma_hits_range(masks.rowheader@, r + 1, subtree_end(page.nodes@, r as int));
    }
    let hs = hits_exec(&masks.rowheader, r + 1, page.ends[r]);
    if hs.len() > 0 {
        proof {
            assert(idx(hs@)[0] == hs@[0] as int);
        }
        node_text_exec(page, hs[0])
    } else {
        str_chars("其他規格")
    }
}

fn single_column_exec(n: &DomNode) -> (r: bool)
    ensures
        r == single_column(*n),
{
    let a = match attr(n, "aria-colspan") {
        Some(v) => crate::text::str_eq(v.as_str(), "1"),
        None => true,
    };
    let b = match attr(n, "colspan") {
        Some(v) => crate::text::str_eq(v.as_str(), "1"),
        None => true,
    };
    a && b
}

fn concat3(a: &Vec<char>, b: &str, c: &Vec<char>) -> (r: Vec<char>)
    ensures
        r@ == a@ + b@ + c@,
{
    let mut out: Vec<char> = Vec::new();
    let mut x = a.clone();
    let mut y = str_chars(b);
    let mut z = c.clone();
    proof {
        assert(x@ =~= a@);
        assert(z@ =~= c@);
    }
    out.append(&mut x);
    out.append(&mut y);
    out.append(&mut z);
    proof {
        assert(out@ =~= a@ + b@ + c@);
    }
    out
}

/// The blocks of specification row `r` (unnumbered).
fn row_blocks(page: &Page, masks: &Masks, r: usize) -> (out: Vec<Block>)
    requires
        page.wf(),
        r < page.nodes@.len(),
    ensures
        pieces_of(out@) == row_pieces(page.nodes@, masks.view(), r as int),
{
    let _total = page.nodes.len();
    let mut out: Vec<Block> = Vec::new();
    if under_header_row_exec(page, r) {
        proof {
            assert(pieces_of(out@) =~= Seq::<PieceV>::empty());
        }
        return out;
    }
    proof {
        lemma_scan_end(page.nodes@, r as int, r + 1);
        lemma_hits_range(masks.cells@, r + 1, subtree_end(page.nodes@, r as int));
    }
    let cells = hits_exec(&masks.cells, r + 1, page.ends[r]);
    let headers = row_headers_exec(page, masks, r);
    let context = row_context_exec(page, r);
    let section = row_section_exec(page, masks, r);
    let ghost cv = idx(cells@);
    let ghost hv = char_views(headers@);
    let mut i: usize = 0;
    proof {
        assert(pieces_of(out@) =~= Seq::<PieceV>::empty());
    }
    while i < cells.len()
        invariant
            page.wf(),
            cv == idx(cells@),
            cv == hits(masks.cells@, r + 1, subtree_end(page.nodes@, r as int)),
            forall|k: int| 0 <= k < cv.len() ==> r + 1 <= #[trigger] cv[k] < subtree_end(page.nodes@, r as int),
            subtree_end(page.nodes@, r as int) <= page.nodes@.len(),
            hv == char_views(headers@),
            hv == row_headers(page.nodes@, masks.view(), r as int),
            context@ == row_context(page.nodes@, r as int),
            section@ == row_section(page.nodes@, masks.view(), r as int),
            i <= cells@.len(),
            pieces_of(out@) == cell_pieces(page.nodes@, cv, i as int, hv, context@, section@),
        decreases cells.len() - i,
    {
        let c = cells[i];
        proof {
            assert(cv[i as int] == c as int);
        }
        let t = node_text_exec(page, c);
        if t.len() > 0 {
            let hint: Option<String> = if headers.len() == cells.len() && single_column_exec(&page.nodes[c]) {
                let joined = concat3(&context, " ", &headers[i]);
                let trimmed = trim_chars(joined.as_slice());
                proof {
                    assert(headers@[i as int]@ == hv[i as int]);
                }
                Some(string_from_chars(trimmed.as_slice()))
            } else {
                None
            };
            let b = Block {
                id: 0,
                section: string_from_chars(section.as_slice()),
                model_hint: hint,
                context: string_from_chars(context.as_slice()),
                text: string_from_chars(t.as_slice()),
            };
            let ghost before = out@;
            out.push(b);
            proof {
                assert(out@ == before.push(b));
                assert(pieces_of(out@) =~= pieces_of(before).push(piece_of(b)));
                assert(opt_view(hint) == cell_hint(page.nodes@, cv, i as int, hv, context@));
            }
        }
        i += 1;
    }
    out
}

/// The blocks of all specification rows (unnumbered).
fn table_blocks(page: &Page, masks: &Masks) -> (out: Vec<Block>)
    requires
        page.wf(),
    ensures
        pieces_of(out@) == rows_pieces(page.nodes@, masks.view(), hits(masks.rows@, 0, page.nodes@.len() as int)),
{
    let n = page.nodes.len();
    let rows = hits_exec(&masks.rows, 0, n);
    let ghost rv = idx(rows@);
    proof {
        lemma_hits_range(masks.rows@, 0, n as int);
    }
    let mut out: Vec<Block> = Vec::new();
    let mut i: usize = 0;
    proof {
        assert(rv.take(0) =~= Seq::<int>::empty());
        assert(pieces_of(out@) =~= rows_pieces(page.nodes@, masks.view(), rv.take(0)));
    }
    while i < rows.len()
        invariant
            page.wf(),
            n == page.nodes@.len(),
            rv == idx(rows@),
            rv == hits(masks.rows@, 0, n as int),
            forall|k: int| 0 <= k < rv.len() ==> 0 <= #[trigger] rv[k] < n,
            i <= rows@.len(),
            pieces_of(out@) == rows_pieces(page.nodes@, masks.view(), rv.take(i as int)),
        decreases rows.len() - i,
    {
        proof {
            assert(rv[i as int] == rows@[i as int] as int);
        }
        let mut more = row_blocks(page, masks, rows[i]);
        let ghost before = out@;
        let ghost mv = more@;
        out.append(&mut more);
        proof {
            assert(rv.take(i + 1).drop_last() =~= rv.take(i as int));
            assert(rv.take(i + 1).last() == rv[i as int]);
            assert(pieces_of(out@) =~= pieces_of(before) + pieces_of(mv));
        }
        i += 1;
    }
    proof {
        assert(rv.take(rows@.len() as int) =~= rv);
    }
    out
}

} // verus!

verus! {

use crate::pattern::regex_find_all;

/// Own selected nodes lie strictly inside the range they were looked for in.
pub proof fn lemma_own_hits_range(nodes: Seq<DomNode>, cuts: Seq<bool>, root: int, m: Seq<bool>, hi: int)
    ensures
        forall|k: int| 0 <= k < own_hits(nodes, cuts, root, m, hi).len() ==> root < #[trigger] own_hits(nodes, cuts, root, m, hi)[k] < hi,
    decreases hi - root,
{
    if hi > root + 1 {
        lemma_own_hits_range(nodes, cuts, root, m, hi - 1);
        let a = own_hits(nodes, cuts, root, m, hi - 1);
        assert forall|k: int| 0 <= k < own_hits(nodes, cuts, root, m, hi).len() implies root < #[trigger] own_hits(nodes, cuts, root, m, hi)[k] < hi by {
            if k < a.len() {
                assert(own_hits(nodes, cuts, root, m, hi)[k] == a[k]);
            }
        }
    }
}

fn model_names(t: &Vec<char>) -> (r: Option<Vec<String>>)
    ensures
        match r {
            Some(v) => spec_regex_find_all(model_pattern(), t@) == Some(v@.map_values(|s: String| s@)),
            None => spec_regex_find_all(model_pattern(), t@) is None,
        },
{
    let s = string_from_chars(t.as_slice());
    regex_find_all("[0-9]+ 個連接埠機型(?: [0-9]+)?", s.as_str())
}

fn labelled_exec(t: &Vec<char>) -> (r: bool)
    ensures
        r == labelled(t@),
{
    match model_names(t) {
        Some(v) => v.len() > 0,
        None => false,
    }
}

fn single_label_exec(t: &Vec<char>) -> (r: Option<String>)
    ensures
        opt_view(r) == single_label(t@),
{
    match model_names(t) {
        Some(v) => {
            let ghost ms = v@.map_values(|s: String| s@);
            if v.len() == 0 {
                return None;
            }
            let mut i: usize = 1;
            while i < v.len()
                invariant
                    ms == v@.map_values(|s: String| s@),
                    spec_regex_find_all(model_pattern(), t@) == Some(ms),
                    1 <= i <= v@.len(),
                    forall|k: int| 0 <= k < i ==> #[trigger] ms[k] == ms[0],
                decreases v.len() - i,
            {
                if v[i] != v[0] {
                    proof {
                        assert(ms[i as int] != ms[0]);
                    }
                    return None;
                }
                i += 1;
            }
            Some(v[0].clone())
        },
        None => None,
    }
}

/// The section-cut flags of every node.
fn cuts_exec(page: &Page) -> (c: Vec<bool>)
    ensures
        c@ == section_cuts(page.nodes@),
{
    let mut out: Vec<bool> = Vec::new();
    let mut k: usize = 0;
    while k < page.nodes.len()
        invariant
            k <= page.nodes@.len(),
            out@.len() == k,
            forall|x: int| 0 <= x < k ==> #[trigger] out@[x] == section_cut(page.nodes@[x]),
        decreases page.nodes.len() - k,
    {
        let n = &page.nodes[k];
        out.push(crate::text::str_eq(n.name.as_str(), "section") || is_table_like(n));
        k += 1;
    }
    proof {
        assert(out@ =~= section_cuts(page.nodes@));
    }
    out
}

fn grid_blocks(page: &Page, grid: &Vec<usize>, title: &Vec<char>) -> (out: Vec<Block>)
    requires
        page.wf(),
        forall|k: int| 0 <= k < grid@.len() ==> #[trigger] grid@[k] < page.nodes@.len(),
    ensures
        pieces_of(out@) == grid_pieces(page.nodes@, idx(grid@), title@),
{
    let mut out: Vec<Block> = Vec::new();
    let ghost gv = idx(grid@);
    let mut i: usize = 0;
    proof {
        assert(gv.take(0) =~= Seq::<int>::empty());
        assert(pieces_of(out@) =~= grid_pieces(page.nodes@, gv.take(0), title@));
    }
    while i < grid.len()
        invariant
            page.wf(),
            gv == idx(grid@),
            forall|k: int| 0 <= k < grid@.len() ==> #[trigger] grid@[k] < page.nodes@.len(),
            i <= grid@.len(),
            pieces_of(out@) == grid_pieces(page.nodes@, gv.take(i as int), title@),
        decreases grid.len() - i,
    {
        let t = node_text_exec(page, grid[i]);
        proof {
            assert(gv.take(i + 1).drop_last() =~= gv.take(i as int));
            assert(gv.take(i + 1).last() == grid@[i as int] as int);
        }
        if t.len() > 0 {
            let b = Block {
                id: 0,
                section: string_from_chars(title.as_slice()),
                model_hint: single_label_exec(&t),
                context: string_from_chars(str_chars("source-labelled-grid").as_slice()),
                text: string_from_chars(t.as_slice()),
            };
            let ghost before = out@;
            out.push(b);
            proof {
                assert(pieces_of(out@) =~= pieces_of(before).push(piece_of(b)));
            }
        }
        i += 1;
    }
    proof {
        assert(gv.take(grid@.len() as int) =~= gv);
    }
    out
}

/// The blocks of section `s`'s own content (unnumbered).
fn section_blocks(page: &Page, masks: &Masks, cuts: &Vec<bool>, s: usize) -> (out: Vec<Block>)
    requires
        page.wf(),
        s < page.nodes@.len(),
        cuts@ == section_cuts(page.nodes@),
    ensures
        pieces_of(out@) == section_pieces(page.nodes@, masks.view(), s as int),
{
    let ghost nodes = page.nodes@;
    let ghost end = subtree_end(nodes, s as int);
    proof {
        lemma_scan_end(nodes, s as int, s + 1);
        lemma_own_hits_range(nodes, cuts@, s as int, masks.headings@, end);
        lemma_own_hits_range(nodes, cuts@, s as int, masks.grid@, end);
    }
    let value = own_text_exec(page, cuts, s);
    let hs = own_hits_exec(page, cuts, s, &masks.headings);
    let title = if hs.len() > 0 {
        proof {
            assert(idx(hs@)[0] == hs@[0] as int);
        }
        node_text_exec(page, hs[0])
    } else {
        str_chars("待確認段落")
    };
    let grid = own_hits_exec(page, cuts, s, &masks.grid);
    proof {
        assert forall|k: int| 0 <= k < grid@.len() implies #[trigger] grid@[k] < page.nodes@.len() by {
            assert(idx(grid@)[k] == grid@[k] as int);
        }
    }
    let mut out: Vec<Block> = Vec::new();
    if value.len() == 0 || chars_eq(clean_chars(value.as_slice()).as_slice(), clean_chars(title.as_slice()).as_slice()) {
        proof {
            assert(pieces_of(out@) =~= Seq::<PieceV>::empty());
        }
        return out;
    }
    let mut any = false;
    if grid.len() > 1 {
        let mut i: usize = 0;
        while i < grid.len()
            invariant
                page.wf(),
                forall|k: int| 0 <= k < grid@.len() ==> #[trigger] grid@[k] < page.nodes@.len(),
                i <= grid@.len(),
                any == exists|k: int| 0 <= k < i && labelled(#[trigger] node_text(page.nodes@, idx(grid@)[k])),
            decreases grid.len() - i,
        {
            let t = node_text_exec(page, grid[i]);
            proof {
                assert(idx(grid@)[i as int] == grid@[i as int] as int);
            }
            if labelled_exec(&t) {
                any = true;
            }
            i += 1;
        }
    }
    if grid.len() > 1 && any {
        return grid_blocks(page, &grid, &title);
    }
    let b = Block {
        id: 0,
        section: string_from_chars(title.as_slice()),
        model_hint: None,
        context: string_from_chars(str_chars("fallback-section").as_slice()),
        text: string_from_chars(value.as_slice()),
    };
    out.push(b);
    proof {
        assert(pieces_of(out@) =~= seq![piece_of(b)]);
    }
    out
}

/// The blocks of every `main section` (unnumbered).
fn all_section_blocks(page: &Page, masks: &Masks) -> (out: Vec<Block>)
    requires
        page.wf(),
    ensures
        pieces_of(out@) == sections_pieces(page.nodes@, masks.view(), hits(masks.sections@, 0, page.nodes@.len() as int)),
{
    let n = page.nodes.len();
    let cuts = cuts_exec(page);
    let ss = hits_exec(&masks.sections, 0, n);
    let ghost sv = idx(ss@);
    proof {
        lemma_hits_range(masks.sections@, 0, n as int);
    }
    let mut out: Vec<Block> = Vec::new();
    let mut i: usize = 0;
    proof {
        assert(sv.take(0) =~= Seq::<int>::empty());
        assert(pieces_of(out@) =~= sections_pieces(page.nodes@, masks.view(), sv.take(0)));
    }
    while i < ss.len()
        invariant
            page.wf(),
            n == page.nodes@.len(),
            cuts@ == section_cuts(page.nodes@),
            sv == idx(ss@),
            sv == hits(masks.sections@, 0, n as int),
            forall|k: int| 0 <= k < sv.len() ==> 0 <= #[trigger] sv[k] < n,
            i <= ss@.len(),
            pieces_of(out@) == sections_pieces(page.nodes@, masks.view(), sv.take(i as int)),
        decreases ss.len() - i,
    {
        proof {
            assert(sv[i as int] == ss@[i as int] as int);
        }
        let mut more = section_blocks(page, masks, &cuts, ss[i]);
        let ghost before = out@;
        let ghost mv = more@;
        out.append(&mut more);
        proof {
            assert(sv.take(i + 1).drop_last() =~= sv.take(i as int));
            assert(sv.take(i + 1).last() == sv[i as int]);
            assert(pieces_of(out@) =~= pieces_of(before) + pieces_of(mv));
        }
        i += 1;
    }
    proof {
        assert(sv.take(ss@.len() as int) =~= sv);
    }
    out
}

fn footnote_block(page: &Page, k: usize) -> (out: Vec<Block>)
    requires
        page.wf(),
        k < page.nodes@.len(),
    ensures
        pieces_of(out@) == footnote_piece(page.nodes@, k as int),
{
    let mut out: Vec<Block> = Vec::new();
    let t = node_text_exec(page, k);
    if t.len() > 0 {
        let context = match attr(&page.nodes[k], "id") {
            Some(v) => v.clone(),
            None => string_from_chars(str_chars("footnote").as_slice()),
        };
        let b = Block {
            id: 0,
            section: string_from_chars(str_chars("註腳與限制").as_slice()),
            model_hint: None,
            context,
            text: string_from_chars(t.as_slice()),
        };
        out.push(b);
        proof {
            assert(pieces_of(out@) =~= seq![piece_of(b)]);
        }
    } else {
        proof {
            assert(pieces_of(out@) =~= Seq::<PieceV>::empty());
        }
    }
    out
}

/// The blocks of the page's footnotes (unnumbered).
fn footnote_blocks(page: &Page, masks: &Masks) -> (out: Vec<Block>)
    requires
        page.wf(),
    ensures
        pieces_of(out@) == footnote_pieces(page.nodes@, hits(masks.footnotes@, 0, page.nodes@.len() as int)),
{
    let n = page.nodes.len();
    let fs = hits_exec(&masks.footnotes, 0, n);
    let ghost fv = idx(fs@);
    proof {
        lemma_hits_range(masks.footnotes@, 0, n as int);
    }
    let mut out: Vec<Block> = Vec::new();
    let mut i: usize = 0;
    proof {
        assert(fv.take(0) =~= Seq::<int>::empty());
        assert(pieces_of(out@) =~= footnote_pieces(page.nodes@, fv.take(0)));
    }
    while i < fs.len()
        invariant
            page.wf(),
            n == page.nodes@.len(),
            fv == idx(fs@),
            forall|k: int| 0 <= k < fv.len() ==> 0 <= #[trigger] fv[k] < n,
            i <= fs@.len(),
            pieces_of(out@) == footnote_pieces(page.nodes@, fv.take(i as int)),
        decreases fs.len() - i,
    {
        proof {
            assert(fv[i as int] == fs@[i as int] as int);
            assert(fv.take(i + 1).drop_last() =~= fv.take(i as int));
            assert(fv.take(i + 1).last() == fv[i as int]);
        }
        let mut more = footnote_block(page, fs[i]);
        let ghost before = out@;
        let ghost mv = more@;
        out.append(&mut more);
        proof {
            assert(pieces_of(out@) =~= pieces_of(before) + pieces_of(mv));
        }
        i += 1;
    }
    proof {
        assert(fv.take(fs@.len() as int) =~= fv);
    }
    out
}

} // verus!

verus! {

use crate::dom::{parse_dom, page_of, select_mask, spec_parse_dom};

fn sub_chars(v: &Vec<char>, a: usize, b: usize) -> (r: Vec<char>)
    requires
        a <= b <= v@.len(),
    ensures
        r@ == v@.subrange(a as int, b as int),
{
    let mut out: Vec<char> = Vec::new();
    let mut i = a;
    while i < b
        invariant
            a <= i <= b <= v@.len(),
            out@ == v@.subrange(a as int, i as int),
        decreases b - i,
    {
        out.push(v[i]);
        i += 1;
        proof {
            assert(out@ =~= v@.subrange(a as int, i as int));
        }
    }
    out
}

/// The piece with its text replaced by `c`.
pub open spec fn with_text(p: PieceV, c: Seq<char>) -> PieceV {
    (p.0, p.1, p.2, c)
}

proof fn lemma_split_step(ps: Seq<PieceV>, i: int)
    requires
        0 <= i < ps.len(),
    ensures
        split_pieces(ps.take(i + 1)) == split_pieces(ps.take(i)) + chunks(ps[i].3).map_values(
            |c: Seq<char>| with_text(ps[i], c),
        ),
{
    assert(ps.take(i + 1).drop_last() =~= ps.take(i));
    assert(ps.take(i + 1).last() == ps[i]);
    let p = ps[i];
    assert(chunks(p.3).map_values(|c: Seq<char>| (p.0, p.1, p.2, c)) =~= chunks(p.3).map_values(
        |c: Seq<char>| with_text(p, c),
    ));
}

/// Cuts every block's text into runs of at most 3500 characters and numbers the results.
fn split_blocks(bs: &Vec<Block>) -> (r: Vec<Block>)
    ensures
        pieces_of(r@) == split_pieces(pieces_of(bs@)),
        forall|i: int| 0 <= i < r@.len() ==> #[trigger] r@[i].id == i,
{
    let ghost ps = pieces_of(bs@);
    let mut out: Vec<Block> = Vec::new();
    let mut i: usize = 0;
    proof {
        assert(ps.take(0) =~= Seq::<PieceV>::empty());
        assert(pieces_of(out@) =~= split_pieces(ps.take(0)));
    }
    while i < bs.len()
        invariant
            ps == pieces_of(bs@),
            i <= bs@.len(),
            pieces_of(out@) == split_pieces(ps.take(i as int)),
            forall|k: int| 0 <= k < out@.len() ==> #[trigger] out@[k].id == k,
        decreases bs.len() - i,
    {
        let b = &bs[i];
        let t = str_chars(b.text.as_str());
        let ghost p = ps[i as int];
        let ghost base = out@;
        let mut start: usize = 0;
        proof {
            assert(t@.skip(0) =~= t@);
            assert(p == piece_of(bs@[i as int]));
        }
        while start < t.len()
            invariant
                p == piece_of(*b),
                t@ == p.3,
                start <= t@.len(),
                base.len() <= out@.len(),
                out@.take(base.len() as int) == base,
                pieces_of(out@.skip(base.len() as int)) + chunks(t@.skip(start as int)).map_values(
                    |c: Seq<char>| with_text(p, c),
                ) == chunks(t@).map_values(|c: Seq<char>| with_text(p, c)),
                forall|k: int| 0 <= k < out@.len() ==> #[trigger] out@[k].id == k,
            decreases t.len() - start,
        {
            let stop = if t.len() - start > 3500 { start + 3500 } else { t.len() };
            let part = sub_chars(&t, start, stop);
            let nb = Block {
                id: out.len(),
                section: b.section.clone(),
                model_hint: copy_opt(&b.model_hint),
                context: b.context.clone(),
                text: string_from_chars(part.as_slice()),
            };
            let ghost before = out@;
            out.push(nb);
            proof {
                let rest = t@.skip(start as int);
                let f = |c: Seq<char>| with_text(p, c);
                assert(piece_of(nb) == with_text(p, part@));
                if rest.len() <= 3500 {
                    assert(part@ =~= rest);
                    assert(chunks(rest) =~= seq![rest]);
                    assert(t@.skip(stop as int) =~= Seq::<char>::empty());
                    assert(chunks(t@.skip(stop as int)) =~= Seq::<Seq<char>>::empty());
                } else {
                    assert(part@ =~= rest.take(3500));
                    assert(rest.skip(3500) =~= t@.skip(stop as int));
                    assert(chunks(rest) =~= seq![rest.take(3500)] + chunks(t@.skip(stop as int)));
                }
                assert(chunks(rest).map_values(f) =~= seq![f(part@)] + chunks(t@.skip(stop as int)).map_values(f));
                assert(out@.skip(base.len() as int) =~= before.skip(base.len() as int).push(nb));
                assert(pieces_of(out@.skip(base.len() as int)) =~= pieces_of(before.skip(base.len() as int)).push(piece_of(nb)));
                assert(out@.take(base.len() as int) =~= before.take(base.len() as int));
            }
            start = stop;
        }
        proof {
            assert(t@.skip(start as int) =~= Seq::<char>::empty());
            assert(chunks(t@.skip(start as int)) =~= Seq::<Seq<char>>::empty());
            lemma_split_step(ps, i as int);
            assert(out@ =~= out@.take(base.len() as int) + out@.skip(base.len() as int));
            assert(pieces_of(out@) =~= pieces_of(base) + pieces_of(out@.skip(base.len() as int)));
        }
        i += 1;
    }
    proof {
        assert(ps.take(bs@.len() as int) =~= ps);
    }
    out
}

} // verus!

verus! {

fn mask(html: &str, css: &str) -> (m: Vec<bool>)
    ensures
        m@ == mask_of(html@, css@),
{
    match select_mask(html, css) {
        Some(m) => m,
        None => Vec::new(),
    }
}

/// Evaluates the selectors the extraction reads.
pub fn masks_of(html: &str) -> (m: Masks)
    ensures
        m.view() == html_masks(html@),
{
    Masks {
        rows: mask(html, ".techspecs-row, tr"),
        rowheader: mask(html, ".techspecs-rowheader, [role=rowheader], th"),
        colheader: mask(html, "[role=columnheader], .techspecs-header-row h2"),
        cells: mask(html, ".techspecs-column, td"),
        sections: mask(html, "main section"),
        headings: mask(html, "h2, h3"),
        grid: mask(html, ".grid-container > .grid-item"),
        footnotes: mask(html, ".ac-gf-sosumi li"),
    }
}

/// The blocks of a page: every table cell with text (with its row header as section and, when
/// its column is unambiguous, the column header as model hint), then the own content of each
/// section, then each footnote; texts longer than 3500 characters are cut into consecutive
/// blocks, and blocks are numbered by position.
pub fn blocks_of(page: &Page, masks: &Masks) -> (r: Vec<Block>)
    requires
        page.wf(),
    ensures
        pieces_of(r@) == split_pieces(page_pieces(page.nodes@, masks.view())),
        forall|i: int| 0 <= i < r@.len() ==> #[trigger] r@[i].id == i,
{
    let mut all = table_blocks(page, masks);
    let mut secs = all_section_blocks(page, masks);
    let mut notes = footnote_blocks(page, masks);
    let ghost a = all@;
    let ghost s = secs@;
    all.append(&mut secs);
    let ghost b = all@;
    all.append(&mut notes);
    proof {
        assert(pieces_of(b) =~= pieces_of(a) + pieces_of(s));
        assert(pieces_of(all@) =~= page_pieces(page.nodes@, masks.view()));
    }
    split_blocks(&all)
}

/// Extracts the source blocks of a specification page (see [`blocks_of`]).
pub fn blocks(html: &str) -> (r: Vec<Block>)
    ensures
        pieces_of(r@) == split_pieces(page_pieces(spec_parse_dom(html@), html_masks(html@))),
        forall|i: int| 0 <= i < r@.len() ==> #[trigger] r@[i].id == i,
        forall|i: int| 0 <= i < r@.len() ==> 1 <= (#[trigger] r@[i]).text@.len() <= max_block_chars(),
{
    let page = page_of(parse_dom(html));
    let masks = masks_of(html);
    let r = blocks_of(&page, &masks);
    proof {
        crate::laws::law_split_lossless(page_pieces(spec_parse_dom(html@), html_masks(html@)));
        assert forall|i: int| 0 <= i < r@.len() implies 1 <= (#[trigger] r@[i]).text@.len() <= max_block_chars() by {
            assert(pieces_of(r@)[i] == piece_of(r@[i]));
        }
    }
    r
}

} // verus!

verus! {

use crate::urls::{spec_url_join, spec_url_parse, url_join, url_parse, UrlParts};
use crate::text::{has_prefix, contains_seq, trim_end_char, trim_start_char, starts_with, contains_str, trim_end_char_exec, trim_start_char_exec};

/// The crawler's URL boundary: HTTPS on `www.apple.com` without port or credentials, under
/// `/tw/` or the robots file.
pub open spec fn allowed_spec(u: UrlParts) -> bool {
    &&& u.scheme@ == "https"@
    &&& opt_view(u.host) == Some("www.apple.com"@)
    &&& u.port is None
    &&& u.username@.len() == 0
    &&& u.password is None
    &&& (has_prefix(u.path@, "/tw/"@) || u.path@ == "/robots.txt"@)
}

/// Whether a URL is inside the crawler's boundary (see [`allowed_spec`]).
pub fn allowed(u: &UrlParts) -> (r: bool)
    ensures
        r == allowed_spec(*u),
{
    let host_ok = match &u.host {
        Some(h) => crate::text::str_eq(h.as_str(), "www.apple.com"),
        None => false,
    };
    let path = str_chars(u.path.as_str());
    crate::text::str_eq(u.scheme.as_str(), "https") && host_ok && u.port.is_none()
        && u.username.as_str().is_empty() && u.password.is_none()
        && (starts_with(path.as_slice(), "/tw/") || crate::text::str_eq(u.path.as_str(), "/robots.txt"))
}

/// `href` resolved against `base`, when inside the boundary, without query and fragment.
pub open spec fn canonical_spec(base: Seq<char>, href: Seq<char>) -> Option<Seq<char>> {
    match spec_url_join(base, href) {
        Ok(u) => if allowed_spec(u) {
            Some(u.without_query@)
        } else {
            None
        },
        Err(_) => None,
    }
}

/// Resolves a link and keeps it only inside the boundary, dropping query and fragment.
pub fn canonical(base: &str, href: &str) -> (r: Option<String>)
    ensures
        opt_view(r) == canonical_spec(base@, href@),
{
    match url_join(base, href) {
        Ok(u) => if allowed(&u) {
            Some(u.without_query.clone())
        } else {
            None
        },
        Err(_) => None,
    }
}

/// Index of the first `/` in `t`, or its length.
pub open spec fn first_slash(t: Seq<char>) -> int
    decreases t.len(),
{
    if t.len() == 0 {
        0
    } else if t[0] == '/' {
        0
    } else {
        1 + first_slash(t.drop_first())
    }
}

/// The category a product slug belongs to.
pub open spec fn slug_category(s: Seq<char>) -> Option<Seq<char>> {
    if has_prefix(s, "iphone-"@) {
        Some("iphone"@)
    } else if has_prefix(s, "macbook-"@) || s == "imac"@ || s == "mac-mini"@ || s == "mac-studio"@
        || s == "mac-pro"@ {
        Some("mac"@)
    } else if has_prefix(s, "ipad-"@) && !contains_seq(s, "keyboard"@) {
        Some("ipad"@)
    } else if has_prefix(s, "apple-watch-"@) && !contains_seq(s, "hermes"@) && !contains_seq(
        s,
        "nike"@,
    ) && !contains_seq(s, "for-your-kids"@) {
        Some("watch"@)
    } else if has_prefix(s, "airpods-"@) && !contains_seq(s, "compare"@) {
        Some("airpods"@)
    } else {
        None
    }
}

/// The category of a product page path: exactly two segments, `tw` and a product slug.
pub open spec fn path_category(path: Seq<char>) -> Option<Seq<char>> {
    let t = trim_start_char(trim_end_char(path, '/'), '/');
    let p = first_slash(t);
    if p < t.len() && t.take(p) == "tw"@ && (forall|q: int| p < q < t.len() ==> #[trigger] t[q] != '/') {
        slug_category(t.skip(p + 1))
    } else {
        None
    }
}

/// The product category of a URL, if it is a product page.
pub open spec fn category_spec(url: Seq<char>) -> Option<Seq<char>> {
    match spec_url_parse(url) {
        Ok(u) => path_category(u.path@),
        Err(_) => None,
    }
}

fn eq_lit(s: &Vec<char>, lit: &str) -> (r: bool)
    ensures
        r == (s@ == lit@),
{
    chars_eq(s.as_slice(), str_chars(lit).as_slice())
}

fn slug_category_exec(s: &Vec<char>) -> (r: Option<String>)
    ensures
        opt_view(r) == slug_category(s@),
{
    let x = s.as_slice();
    if starts_with(x, "iphone-") {
        Some(String::from_str("iphone"))
    } else if starts_with(x, "macbook-") || eq_lit(s, "imac") || eq_lit(s, "mac-mini") || eq_lit(s, "mac-studio") || eq_lit(s, "mac-pro") {
        Some(String::from_str("mac"))
    } else if starts_with(x, "ipad-") && !contains_str(x, "keyboard") {
        Some(String::from_str("ipad"))
    } else if starts_with(x, "apple-watch-") && !contains_str(x, "hermes") && !contains_str(x, "nike") && !contains_str(x, "for-your-kids") {
        Some(String::from_str("watch"))
    } else if starts_with(x, "airpods-") && !contains_str(x, "compare") {
        Some(String::from_str("airpods"))
    } else {
        None
    }
}

/// The category of a product page path.
#[verifier::loop_isolation(false)]
pub fn path_category_exec(path: &str) -> (r: Option<String>)
    ensures
        opt_view(r) == path_category(path@),
{
    let a = trim_end_char_exec(str_chars(path).as_slice(), '/');
    let t = trim_start_char_exec(a.as_slice(), '/');
    let mut p: usize = 0;
    proof {
        assert(t@.skip(0) =~= t@);
    }
    while p < t.len() && t[p] != '/'
        invariant
            p <= t@.len(),
            first_slash(t@) == p + first_slash(t@.skip(p as int)),
        decreases t.len() - p,
    {
        proof {
            assert(t@.skip(p as int).drop_first() =~= t@.skip(p + 1));
        }
        p += 1;
    }
    proof {
        if p < t@.len() {
            assert(t@.skip(p as int)[0] == '/');
        } else {
            assert(t@.skip(p as int).len() == 0);
        }
    }
    if p >= t.len() {
        return None;
    }
    let head = sub_chars(&t, 0, p);
    proof {
        assert(head@ =~= t@.take(p as int));
    }
    if !eq_lit(&head, "tw") {
        return None;
    }
    let mut q = p + 1;
    while q < t.len()
        invariant
            p < q <= t@.len(),
            forall|x: int| p < x < q ==> #[trigger] t@[x] != '/',
        decreases t.len() - q,
    {
        if t[q] == '/' {
            proof {
                assert(t@[q as int] == '/');
            }
            return None;
        }
        q += 1;
    }
    let slug = sub_chars(&t, p + 1, t.len());
    proof {
        assert(slug@ =~= t@.skip(p + 1));
    }
    slug_category_exec(&slug)
}

/// The product category of a URL: `iphone`, `mac`, `ipad`, `watch` or `airpods`.
pub fn category_for(url: &str) -> (r: Option<String>)
    ensures
        opt_view(r) == category_spec(url@),
{
    match url_parse(url) {
        Ok(u) => path_category_exec(u.path.as_str()),
        Err(_) => None,
    }
}

} // verus!

verus! {

/// Lexicographic order on character sequences (the order of `str`).
pub open spec fn seq_lt(a: Seq<char>, b: Seq<char>) -> bool
    decreases a.len(),
{
    if a.len() == 0 {
        b.len() > 0
    } else if b.len() == 0 {
        false
    } else if a[0] < b[0] {
        true
    } else if a[0] == b[0] {
        seq_lt(a.drop_first(), b.drop_first())
    } else {
        false
    }
}

/// Distinct sequences are ordered one way or the other.
pub proof fn lemma_seq_lt_total(a: Seq<char>, b: Seq<char>)
    requires
        a != b,
    ensures
        seq_lt(a, b) || seq_lt(b, a),
    decreases a.len(),
{
    if a.len() > 0 && b.len() > 0 && a[0] == b[0] {
        if a.drop_first() == b.drop_first() {
            assert(a =~= seq![a[0]] + a.drop_first());
            assert(b =~= seq![b[0]] + b.drop_first());
        }
        lemma_seq_lt_total(a.drop_first(), b.drop_first());
    } else if a.len() == 0 && b.len() == 0 {
        assert(a =~= b);
    }
}

/// The order of character sequences is transitive.
pub proof fn lemma_seq_lt_trans(a: Seq<char>, b: Seq<char>, c: Seq<char>)
    requires
        seq_lt(a, b),
        seq_lt(b, c),
    ensures
        seq_lt(a, c),
    decreases a.len(),
{
    if a.len() > 0 && b.len() > 0 && c.len() > 0 && a[0] == b[0] && b[0] == c[0] {
        lemma_seq_lt_trans(a.drop_first(), b.drop_first(), c.drop_first());
    }
}

proof fn lemma_sorted_pair(s: Seq<Seq<char>>, i: int, j: int)
    requires
        strictly_sorted(s),
        0 <= i < j < s.len(),
    ensures
        seq_lt(s[i], s[j]),
    decreases j - i,
{
    if j > i + 1 {
        lemma_sorted_pair(s, i, j - 1);
        lemma_seq_lt_trans(s[i], s[j - 1], s[j]);
    }
}

/// In a strictly sorted sequence every item sorts before every later one.
pub proof fn lemma_sorted_pairwise(s: Seq<Seq<char>>)
    requires
        strictly_sorted(s),
    ensures
        forall|i: int, j: int| 0 <= i < j < s.len() ==> seq_lt(#[trigger] s[i], #[trigger] s[j]),
{
    assert forall|i: int, j: int| 0 <= i < j < s.len() implies seq_lt(#[trigger] s[i], #[trigger] s[j]) by {
        lemma_sorted_pair(s, i, j);
    }
}

/// Whether `a` sorts before `b`.
pub fn lt_chars(a: &[char], b: &[char]) -> (r: bool)
    ensures
        r == seq_lt(a@, b@),
{
    let mut i: usize = 0;
    proof {
        assert(a@.skip(0) =~= a@);
        assert(b@.skip(0) =~= b@);
    }
    loop
        invariant
            i <= a@.len(),
            i <= b@.len(),
            seq_lt(a@, b@) == seq_lt(a@.skip(i as int), b@.skip(i as int)),
        decreases a@.len() - i,
    {
        if i == a.len() {
            return i < b.len();
        }
        if i == b.len() {
            return false;
        }
        proof {
            assert(a@.skip(i as int).drop_first() =~= a@.skip(i + 1));
            assert(b@.skip(i as int).drop_first() =~= b@.skip(i + 1));
            assert(a@.skip(i as int)[0] == a@[i as int]);
            assert(b@.skip(i as int)[0] == b@[i as int]);
        }
        if a[i] < b[i] {
            return true;
        }
        if a[i] != b[i] {
            return false;
        }
        i += 1;
    }
}

/// Strictly increasing: sorted without duplicates.
pub open spec fn strictly_sorted(s: Seq<Seq<char>>) -> bool {
    forall|i: int| 0 <= i < s.len() - 1 ==> seq_lt(#[trigger] s[i], s[i + 1])
}

/// The sorted, duplicate-free version of `v`.
pub fn sort_dedup(v: &Vec<Vec<char>>) -> (r: Vec<Vec<char>>)
    ensures
        strictly_sorted(char_views(r@)),
        forall|i: int| 0 <= i < v@.len() ==> char_views(r@).contains(#[trigger] char_views(v@)[i]),
        forall|j: int| 0 <= j < r@.len() ==> char_views(v@).contains(#[trigger] char_views(r@)[j]),
{
    let ghost cv = char_views(v@);
    let mut out: Vec<Vec<char>> = Vec::new();
    let mut k: usize = 0;
    while k < v.len()
        invariant
            cv == char_views(v@),
            k <= v@.len(),
            strictly_sorted(char_views(out@)),
            forall|i: int| 0 <= i < k ==> char_views(out@).contains(#[trigger] cv[i]),
            forall|j: int| 0 <= j < out@.len() ==> cv.take(k as int).contains(#[trigger] char_views(out@)[j]),
        decreases v.len() - k,
    {
        let x = &v[k];
        let mut p: usize = 0;
        while p < out.len() && lt_chars(out[p].as_slice(), x.as_slice())
            invariant
                p <= out@.len(),
                forall|q: int| 0 <= q < p ==> seq_lt(#[trigger] out@[q]@, x@),
            decreases out.len() - p,
        {
            p += 1;
        }
        let ghost ov = char_views(out@);
        if p < out.len() && chars_eq(out[p].as_slice(), x.as_slice()) {
            proof {
                assert(ov[p as int] == cv[k as int]);
                assert forall|j: int| 0 <= j < out@.len() implies cv.take(k + 1).contains(#[trigger] char_views(out@)[j]) by {
                    let w = choose|w: int| 0 <= w < k && cv.take(k as int)[w] == ov[j];
                    assert(cv.take(k + 1)[w] == ov[j]);
                }
            }
        } else {
            let mut y = x.clone();
            proof {
                assert(y@ =~= x@);
                if p < out@.len() {
                    assert(out@[p as int]@ != x@);
                    lemma_seq_lt_total(out@[p as int]@, x@);
                }
            }
            out.insert(p, y);
            proof {
                let nv = char_views(out@);
                assert(nv =~= ov.insert(p as int, x@));
                assert forall|i: int| 0 <= i < nv.len() - 1 implies seq_lt(#[trigger] nv[i], nv[i + 1]) by {
                    if i + 1 < p {
                        assert(nv[i] == ov[i] && nv[i + 1] == ov[i + 1]);
                    } else if i + 1 == p {
                        assert(nv[i] == ov[i] && nv[i + 1] == x@);
                        assert(seq_lt(out@[i]@, x@));
                    } else if i == p {
                        assert(nv[i + 1] == ov[i]);
                    } else {
                        assert(nv[i] == ov[i - 1] && nv[i + 1] == ov[i]);
                    }
                }
                assert forall|i: int| 0 <= i < k + 1 implies nv.contains(#[trigger] cv[i]) by {
                    if i == k {
                        assert(nv[p as int] == cv[i]);
                    } else {
                        let w = choose|w: int| 0 <= w < ov.len() && ov[w] == cv[i];
                        if w < p {
                            assert(nv[w] == cv[i]);
                        } else {
                            assert(nv[w + 1] == cv[i]);
                        }
                    }
                }
                assert forall|j: int| 0 <= j < out@.len() implies cv.take(k + 1).contains(#[trigger] char_views(out@)[j]) by {
                    if j == p {
                        assert(cv.take(k + 1)[k as int] == x@);
                    } else {
                        let jj = if j < p { j } else { j - 1 };
                        assert(nv[j] == ov[jj]);
                        let w = choose|w: int| 0 <= w < k && cv.take(k as int)[w] == ov[jj];
                        assert(cv.take(k + 1)[w] == ov[jj]);
                    }
                }
            }
        }
        k += 1;
    }
    proof {
        assert(cv.take(v@.len() as int) =~= cv);
    }
    out
}

} // verus!

verus! {

/// The characters of each string.
pub open spec fn string_views(v: Seq<String>) -> Seq<Seq<char>> {
    v.map_values(|s: String| s@)
}

/// The in-boundary, canonical targets of the given anchors, in document order.
pub open spec fn href_links(nodes: Seq<DomNode>, anchors: Seq<int>, base: Seq<char>) -> Seq<Seq<char>>
    decreases anchors.len(),
{
    if anchors.len() == 0 {
        Seq::empty()
    } else {
        href_links(nodes, anchors.drop_last(), base) + match attr_spec(nodes[anchors.last()], "href"@) {
            Some(h) => match canonical_spec(base, h) {
                Some(c) => seq![c],
                None => Seq::empty(),
            },
            None => Seq::empty(),
        }
    }
}

/// The canonical link targets of the anchors of `html` matching `css`.
pub open spec fn anchor_links(html: Seq<char>, css: Seq<char>, base: Seq<char>) -> Seq<Seq<char>> {
    let nodes = spec_parse_dom(html);
    href_links(nodes, hits(mask_of(html, css), 0, nodes.len() as int), base)
}

fn href_links_exec(page: &Page, m: &Vec<bool>, base: &str) -> (r: Vec<Vec<char>>)
    requires
        page.wf(),
    ensures
        char_views(r@) == href_links(page.nodes@, hits(m@, 0, page.nodes@.len() as int), base@),
{
    let n = page.nodes.len();
    let hs = hits_exec(m, 0, n);
    let ghost hv = idx(hs@);
    proof {
        lemma_hits_range(m@, 0, n as int);
    }
    let mut out: Vec<Vec<char>> = Vec::new();
    let mut i: usize = 0;
    proof {
        assert(hv.take(0) =~= Seq::<int>::empty());
        assert(char_views(out@) =~= href_links(page.nodes@, hv.take(0), base@));
    }
    while i < hs.len()
        invariant
            page.wf(),
            n == page.nodes@.len(),
            hv == idx(hs@),
            hv == hits(m@, 0, n as int),
            forall|k: int| 0 <= k < hv.len() ==> 0 <= #[trigger] hv[k] < n,
            i <= hs@.len(),
            char_views(out@) == href_links(page.nodes@, hv.take(i as int), base@),
        decreases hs.len() - i,
    {
        proof {
            assert(hv[i as int] == hs@[i as int] as int);
            assert(hv.take(i + 1).drop_last() =~= hv.take(i as int));
            assert(hv.take(i + 1).last() == hv[i as int]);
        }
        let ghost before = char_views(out@);
        let ghost node = page.nodes@[hv[i as int]];
        let ghost tail = match attr_spec(node, "href"@) {
            Some(h) => match canonical_spec(base@, h) {
                Some(c) => seq![c],
                None => Seq::<Seq<char>>::empty(),
            },
            None => Seq::<Seq<char>>::empty(),
        };
        proof {
            assert(href_links(page.nodes@, hv.take(i + 1), base@) == href_links(page.nodes@, hv.take(i as int), base@) + tail);
        }
        match attr(&page.nodes[hs[i]], "href") {
            Some(h) => match canonical(base, h.as_str()) {
                Some(c) => {
                    out.push(str_chars(c.as_str()));
                    proof {
                        assert(char_views(out@) =~= before.push(c@));
                        assert(before.push(c@) =~= before + tail);
                    }
                },
                None => {
                    assert(before =~= before + tail);
                },
            },
            None => {
                assert(before =~= before + tail);
            },
        }
        i += 1;
    }
    proof {
        assert(hv.take(hs@.len() as int) =~= hv);
    }
    out
}

/// The distinct in-boundary links of a page, canonical and in sorted order.
pub fn links(html: &str, base: &str) -> (r: Vec<String>)
    ensures
        strictly_sorted(string_views(r@)),
        forall|i: int| 0 <= i < anchor_links(html@, "a[href]"@, base@).len() ==> string_views(r@).contains(#[trigger] anchor_links(html@, "a[href]"@, base@)[i]),
        forall|j: int| 0 <= j < r@.len() ==> anchor_links(html@, "a[href]"@, base@).contains(#[trigger] string_views(r@)[j]),
{
    let page = page_of(parse_dom(html));
    let m = mask(html, "a[href]");
    let cands = href_links_exec(&page, &m, base);
    let sorted = sort_dedup(&cands);
    let mut out: Vec<String> = Vec::new();
    let mut i: usize = 0;
    while i < sorted.len()
        invariant
            i <= sorted@.len(),
            string_views(out@) == char_views(sorted@).take(i as int),
        decreases sorted.len() - i,
    {
        let ghost prev = out@;
        let item = string_from_chars(sorted[i].as_slice());
        proof {
            assert(item@ == char_views(sorted@)[i as int]);
        }
        out.push(item);
        i += 1;
        proof {
            assert(out@ == prev.push(item));
            assert(string_views(out@) =~= string_views(prev).push(item@));
            assert(string_views(out@) =~= char_views(sorted@).take(i as int));
        }
    }
    proof {
        assert(string_views(out@) =~= char_views(sorted@));
        assert(char_views(cands@) == anchor_links(html@, "a[href]"@, base@));
    }
    out
}

/// A purchase page of the Taiwan online store.
pub open spec fn is_buy_link(s: Seq<char>) -> bool {
    contains_seq(s, "/tw/shop/"@) && (contains_seq(s, "/buy-"@) || contains_seq(s, "/goto/buy_"@))
}

/// The first purchase page among the links.
pub open spec fn first_buy(cands: Seq<Seq<char>>) -> Option<Seq<char>>
    decreases cands.len(),
{
    if cands.len() == 0 {
        None
    } else if is_buy_link(cands[0]) {
        Some(cands[0])
    } else {
        first_buy(cands.drop_first())
    }
}

/// The product navigation's purchase buttons, old (`ac-ln-button`) and new (`cta buy`).
pub open spec fn buy_selector() -> Seq<char> {
    "a.ac-ln-button[href], a.cta.buy[href]"@
}

/// The purchase page a product page's own purchase button leads to.
pub fn buy_link(html: &str, base: &str) -> (r: Option<String>)
    ensures
        opt_view(r) == first_buy(anchor_links(html@, buy_selector(), base@)),
{
    let page = page_of(parse_dom(html));
    let m = mask(html, "a.ac-ln-button[href], a.cta.buy[href]");
    let cands = href_links_exec(&page, &m, base);
    let ghost cv = char_views(cands@);
    let mut i: usize = 0;
    proof {
        assert(cv.skip(0) =~= cv);
        assert(cv == anchor_links(html@, buy_selector(), base@));
    }
    while i < cands.len()
        invariant
            cv == char_views(cands@),
            cv == anchor_links(html@, buy_selector(), base@),
            i <= cands@.len(),
            first_buy(cv) == first_buy(cv.skip(i as int)),
        decreases cands.len() - i,
    {
        let c = cands[i].as_slice();
        proof {
            assert(cv.skip(i as int).drop_first() =~= cv.skip(i + 1));
            assert(cv.skip(i as int)[0] == cands@[i as int]@);
        }
        if contains_str(c, "/tw/shop/") && (contains_str(c, "/buy-") || contains_str(c, "/goto/buy_")) {
            let found = string_from_chars(c);
            proof {
                assert(is_buy_link(cv.skip(i as int)[0]));
                assert(cv.skip(i as int).len() > 0);
                assert(first_buy(cv.skip(i as int)) == Some(cv.skip(i as int)[0]));
                assert(found@ == cv.skip(i as int)[0]);
            }
            return Some(found);
        }
        i += 1;
    }
    proof {
        assert(cv.skip(i as int) =~= Seq::<Seq<char>>::empty());
    }
    None
}

} // verus!

verus! {

use crate::json::parse_json;
use crate::json::spec_parse_json;
use crate::jsonld::{collect_prices, law_prices_sound, opt_price_view, price_views, sound_price, value_prices, PriceV};
use crate::models::Price;
use crate::decimal::{dec_lt, dec_lt_exec};
use crate::text::{replace_chars, replace_spec};

/// The first node selected by `m` among the `n` nodes.
pub open spec fn first_hit(m: Seq<bool>, n: int) -> Option<int> {
    let h = hits(m, 0, n);
    if h.len() > 0 {
        Some(h[0])
    } else {
        None
    }
}

fn first_hit_exec(m: &Vec<bool>, n: usize) -> (r: Option<usize>)
    ensures
        match r {
            Some(i) => first_hit(m@, n as int) == Some(i as int) && i < n,
            None => first_hit(m@, n as int) is None,
        },
{
    let hs = hits_exec(m, 0, n);
    proof {
        lemma_hits_range(m@, 0, n as int);
    }
    if hs.len() > 0 {
        proof {
            assert(idx(hs@)[0] == hs@[0] as int);
        }
        Some(hs[0])
    } else {
        None
    }
}

/// The visible text of the first node selected by `first`, or else by `second`.
pub open spec fn first_text(html: Seq<char>, first: Seq<char>, second: Seq<char>) -> Seq<char> {
    let nodes = spec_parse_dom(html);
    match first_hit(mask_of(html, first), nodes.len() as int) {
        Some(i) => node_text(nodes, i),
        None => match first_hit(mask_of(html, second), nodes.len() as int) {
            Some(i) => node_text(nodes, i),
            None => Seq::empty(),
        },
    }
}

/// The visible, line-normalised text of node `node` of a page.
pub fn text(page: &Page, node: usize) -> (r: String)
    requires
        page.wf(),
        node < page.nodes@.len(),
    ensures
        r@ == node_text(page.nodes@, node as int),
{
    let t = node_text_exec(page, node);
    string_from_chars(t.as_slice())
}

/// The product name shown by a page: its first `h1`, else its `title`, without the
/// specification and store suffixes.
pub open spec fn product_name_spec(html: Seq<char>) -> Seq<char> {
    let raw = first_text(html, "h1"@, "title"@);
    let cut = replace_spec(replace_spec(raw, "技術規格"@, Seq::empty()), "- Apple (台灣)"@, Seq::empty());
    trim_spec(trim_end_char(trim_spec(cut), '-'))
}

/// Node `i` is the first node of the page `html` that the selector `css` selects.
pub open spec fn first_selected(html: Seq<char>, css: Seq<char>, i: int) -> bool {
    &&& 0 <= i < spec_parse_dom(html).len()
    &&& sel(mask_of(html, css), i)
    &&& forall|k: int| 0 <= k < i ==> !sel(mask_of(html, css), k)
}

/// The page `html` has a node the selector `css` selects.
pub open spec fn has_selected(html: Seq<char>, css: Seq<char>) -> bool {
    exists|k: int| 0 <= k < spec_parse_dom(html).len() && sel(mask_of(html, css), k)
}

proof fn lemma_hits_first(m: Seq<bool>, n: int)
    requires
        n >= 0,
    ensures
        hits(m, 0, n).len() > 0 <==> exists|k: int| 0 <= k < n && sel(m, k),
        hits(m, 0, n).len() > 0 ==> sel(m, hits(m, 0, n)[0]) && 0 <= hits(m, 0, n)[0] < n
            && forall|k: int| 0 <= k < hits(m, 0, n)[0] ==> !sel(m, k),
    decreases n,
{
    if n > 0 {
        lemma_hits_first(m, n - 1);
        let a = hits(m, 0, n - 1);
        let h = hits(m, 0, n);
        if a.len() > 0 {
            assert(h[0] == a[0]);
        } else if h.len() > 0 {
            assert(h[0] == n - 1);
        }
        if exists|k: int| 0 <= k < n && sel(m, k) {
            let k = choose|k: int| 0 <= k < n && sel(m, k);
            if k < n - 1 {
                assert(a.len() > 0);
            }
        }
    }
}

proof fn lemma_first_hit_is(html: Seq<char>, css: Seq<char>)
    ensures
        has_selected(html, css) ==> exists|i: int| first_selected(html, css, i)
            && first_hit(mask_of(html, css), spec_parse_dom(html).len() as int) == Some(i),
        !has_selected(html, css) ==> first_hit(mask_of(html, css), spec_parse_dom(html).len() as int) is None,
        forall|i: int, j: int| first_selected(html, css, i) && first_selected(html, css, j) ==> i == j,
{
    let m = mask_of(html, css);
    let n = spec_parse_dom(html).len() as int;
    lemma_hits_first(m, n);
    if has_selected(html, css) {
        let q = hits(m, 0, n)[0];
        assert(first_selected(html, css, q));
    }
    assert forall|i: int, j: int| first_selected(html, css, i) && first_selected(html, css, j) implies i == j by {
        if i < j {
            assert(!sel(m, i));
        } else if j < i {
            assert(!sel(m, j));
        }
    }
}

/// The product name comes from the first `h1` when the page has one, whatever its title, and
/// from its first `title` only when it has no `h1`: two pages whose deciding headings read the
/// same have the same product name.
pub proof fn law_product_name_source(a: Seq<char>, b: Seq<char>)
    ensures
        forall|i: int, j: int| first_selected(a, "h1"@, i) && first_selected(b, "h1"@, j)
            && node_text(spec_parse_dom(a), i) == node_text(spec_parse_dom(b), j)
            ==> product_name_spec(a) == product_name_spec(b),
        forall|i: int, j: int| first_selected(a, "h1"@, i) && !has_selected(b, "h1"@) && first_selected(b, "title"@, j)
            && node_text(spec_parse_dom(a), i) == node_text(spec_parse_dom(b), j)
            ==> product_name_spec(a) == product_name_spec(b),
        forall|i: int, j: int| !has_selected(a, "h1"@) && !has_selected(b, "h1"@) && first_selected(a, "title"@, i)
            && first_selected(b, "title"@, j) && node_text(spec_parse_dom(a), i) == node_text(spec_parse_dom(b), j)
            ==> product_name_spec(a) == product_name_spec(b),
{
    lemma_first_hit_is(a, "h1"@);
    lemma_first_hit_is(b, "h1"@);
    lemma_first_hit_is(a, "title"@);
    lemma_first_hit_is(b, "title"@);
    assert forall|i: int, j: int| first_selected(a, "h1"@, i) && first_selected(b, "h1"@, j)
        && node_text(spec_parse_dom(a), i) == node_text(spec_parse_dom(b), j)
        implies product_name_spec(a) == product_name_spec(b) by {
        assert(has_selected(a, "h1"@) && has_selected(b, "h1"@));
        assert(first_text(a, "h1"@, "title"@) == first_text(b, "h1"@, "title"@));
    }
    assert forall|i: int, j: int| first_selected(a, "h1"@, i) && !has_selected(b, "h1"@) && first_selected(b, "title"@, j)
        && node_text(spec_parse_dom(a), i) == node_text(spec_parse_dom(b), j)
        implies product_name_spec(a) == product_name_spec(b) by {
        assert(has_selected(a, "h1"@) && has_selected(b, "title"@));
        assert(first_text(a, "h1"@, "title"@) == first_text(b, "h1"@, "title"@));
    }
    assert forall|i: int, j: int| !has_selected(a, "h1"@) && !has_selected(b, "h1"@) && first_selected(a, "title"@, i)
        && first_selected(b, "title"@, j) && node_text(spec_parse_dom(a), i) == node_text(spec_parse_dom(b), j)
        implies product_name_spec(a) == product_name_spec(b) by {
        assert(has_selected(a, "title"@) && has_selected(b, "title"@));
        assert(first_text(a, "h1"@, "title"@) == first_text(b, "h1"@, "title"@));
    }
}

/// The product name of a page (see [`product_name_spec`]).
pub fn product_name(html: &str) -> (r: String)
    ensures
        r@ == product_name_spec(html@),
{
    let page = page_of(parse_dom(html));
    let n = page.nodes.len();
    let h1 = mask(html, "h1");
    let raw: Vec<char> = match first_hit_exec(&h1, n) {
        Some(i) => node_text_exec(&page, i),
        None => {
            let title = mask(html, "title");
            match first_hit_exec(&title, n) {
                Some(i) => node_text_exec(&page, i),
                None => Vec::new(),
            }
        },
    };
    proof {
        assert(raw@ == first_text(html@, "h1"@, "title"@));
    }
    let a = replace_chars(raw.as_slice(), "技術規格", "");
    let b = replace_chars(a.as_slice(), "- Apple (台灣)", "");
    let c = trim_chars(b.as_slice());
    let d = trim_end_char_exec(c.as_slice(), '-');
    let e = trim_chars(d.as_slice());
    proof {
        reveal_strlit("");
        assert(""@ =~= Seq::<char>::empty());
    }
    string_from_chars(e.as_slice())
}

/// The visible text of a page's `main` element, else of its `body`.
pub fn plain(html: &str) -> (r: String)
    ensures
        r@ == first_text(html@, "main"@, "body"@),
{
    let page = page_of(parse_dom(html));
    let n = page.nodes.len();
    let main = mask(html, "main");
    let raw: Vec<char> = match first_hit_exec(&main, n) {
        Some(i) => node_text_exec(&page, i),
        None => {
            let body = mask(html, "body");
            match first_hit_exec(&body, n) {
                Some(i) => node_text_exec(&page, i),
                None => Vec::new(),
            }
        },
    };
    string_from_chars(raw.as_slice())
}

/// The JSON-LD scripts of a page.
pub open spec fn ld_selector() -> Seq<char> {
    "script[type='application/ld+json']"@
}

/// The text of the text nodes among `lo..hi`, in document order.
pub open spec fn texts_between(nodes: Seq<DomNode>, lo: int, hi: int) -> Seq<char>
    decreases hi - lo,
{
    if hi <= lo {
        Seq::empty()
    } else {
        texts_between(nodes, lo, hi - 1) + match nodes[hi - 1].text {
            Some(t) => t@,
            None => Seq::empty(),
        }
    }
}

/// The raw content of element `r`: the text of all its descendants.
pub open spec fn inner_text(nodes: Seq<DomNode>, r: int) -> Seq<char> {
    texts_between(nodes, r + 1, subtree_end(nodes, r))
}

/// The prices of the products each script describes, script after script; a script that
/// is not JSON describes none.
pub open spec fn scripts_prices(nodes: Seq<DomNode>, scripts: Seq<int>, url: Seq<char>) -> Seq<PriceV>
    decreases scripts.len(),
{
    if scripts.len() == 0 {
        Seq::empty()
    } else {
        scripts_prices(nodes, scripts.drop_last(), url) + match spec_parse_json(inner_text(nodes, scripts.last())) {
            Ok(j) => value_prices(j, url),
            Err(_) => Seq::empty(),
        }
    }
}

/// The prices of every product a page describes in JSON-LD.
pub open spec fn page_prices(html: Seq<char>, url: Seq<char>) -> Seq<PriceV> {
    let nodes = spec_parse_dom(html);
    scripts_prices(nodes, hits(mask_of(html, ld_selector()), 0, nodes.len() as int), url)
}

/// The cheapest price, amounts compared by exact value (see [`dec_lt`]); the first one on a
/// tie.
pub open spec fn lowest(ps: Seq<PriceV>) -> Option<PriceV>
    decreases ps.len(),
{
    if ps.len() == 0 {
        None
    } else {
        match lowest(ps.drop_last()) {
            None => Some(ps.last()),
            Some(b) => if dec_lt(ps.last().0, b.0) {
                Some(ps.last())
            } else {
                Some(b)
            },
        }
    }
}

fn inner_text_exec(page: &Page, r: usize) -> (t: String)
    requires
        page.wf(),
        r < page.nodes@.len(),
    ensures
        t@ == inner_text(page.nodes@, r as int),
{
    let e = page.ends[r];
    proof {
        lemma_scan_end(page.nodes@, r as int, r + 1);
    }
    let mut out: Vec<char> = Vec::new();
    let mut k: usize = r + 1;
    while k < e
        invariant
            page.wf(),
            r < k <= e,
            e == subtree_end(page.nodes@, r as int),
            e <= page.nodes@.len(),
            out@ == texts_between(page.nodes@, r + 1, k as int),
        decreases e - k,
    {
        match &page.nodes[k].text {
            Some(t) => {
                let c = str_chars(t.as_str());
                let mut j: usize = 0;
                let ghost before = out@;
                while j < c.len()
                    invariant
                        j <= c@.len(),
                        out@ == before + c@.take(j as int),
                    decreases c.len() - j,
                {
                    out.push(c[j]);
                    j += 1;
                    proof {
                        assert(out@ =~= before + c@.take(j as int));
                    }
                }
                proof {
                    assert(c@.take(c@.len() as int) =~= c@);
                }
            },
            None => {},
        }
        k += 1;
        proof {
            assert(out@ =~= texts_between(page.nodes@, r + 1, k as int));
        }
    }
    string_from_chars(out.as_slice())
}

/// The prices of every product a page describes in schema.org JSON-LD, in document order:
/// one per product whose offers hold a positive TWD amount.
pub fn prices(html: &str, url: &str) -> (r: Vec<Price>)
    ensures
        price_views(r@) == page_prices(html@, url@),
{
    let page = page_of(parse_dom(html));
    let n = page.nodes.len();
    let m = mask(html, "script[type='application/ld+json']");
    let hs = hits_exec(&m, 0, n);
    let ghost hv = idx(hs@);
    proof {
        lemma_hits_range(m@, 0, n as int);
    }
    let mut out: Vec<Price> = Vec::new();
    let mut i: usize = 0;
    proof {
        assert(hv.take(0) =~= Seq::<int>::empty());
        assert(price_views(out@) =~= scripts_prices(page.nodes@, hv.take(0), url@));
    }
    while i < hs.len()
        invariant
            page.wf(),
            n == page.nodes@.len(),
            hv == idx(hs@),
            hv == hits(m@, 0, n as int),
            forall|k: int| 0 <= k < hv.len() ==> 0 <= #[trigger] hv[k] < n,
            i <= hs@.len(),
            price_views(out@) == scripts_prices(page.nodes@, hv.take(i as int), url@),
        decreases hs.len() - i,
    {
        proof {
            assert(hv[i as int] == hs@[i as int] as int);
            assert(hv.take(i + 1).drop_last() =~= hv.take(i as int));
            assert(hv.take(i + 1).last() == hv[i as int]);
        }
        let raw = inner_text_exec(&page, hs[i]);
        let ghost before = price_views(out@);
        match parse_json(raw.as_str()) {
            Ok(j) => {
                collect_prices(&j, url, &mut out);
            },
            Err(_) => {
                proof {
                    assert(price_views(out@) =~= before + Seq::<PriceV>::empty());
                }
            },
        }
        i += 1;
    }
    proof {
        assert(hv.take(hs@.len() as int) =~= hv);
    }
    out
}

/// The starting price of a page: the cheapest of [`prices`], the first one on a tie.
pub fn price(html: &str, url: &str) -> (r: Option<Price>)
    ensures
        opt_price_view(r) == lowest(page_prices(html@, url@)),
{
    let mut ps = prices(html, url);
    let ghost pv = price_views(ps@);
    if ps.len() == 0 {
        return None;
    }
    let mut best: usize = 0;
    let mut i: usize = 1;
    proof {
        assert(pv.take(1).drop_last() =~= Seq::<PriceV>::empty());
        assert(lowest(Seq::<PriceV>::empty()) is None);
        assert(pv.take(1).last() == pv[0]);
    }
    while i < ps.len()
        invariant
            pv == price_views(ps@),
            1 <= i <= ps@.len(),
            best < i,
            lowest(pv.take(i as int)) == Some(pv[best as int]),
        decreases ps.len() - i,
    {
        proof {
            assert(pv.take(i + 1).drop_last() =~= pv.take(i as int));
        }
        if dec_lt_exec(ps[i].amount.as_str(), ps[best].amount.as_str()) {
            best = i;
        }
        i += 1;
    }
    proof {
        assert(pv.take(ps@.len() as int) =~= pv);
    }
    Some(ps.remove(best))
}

proof fn lemma_scripts_prices_sound(nodes: Seq<DomNode>, scripts: Seq<int>, url: Seq<char>)
    ensures
        forall|i: int| 0 <= i < scripts_prices(nodes, scripts, url).len() ==> sound_price(#[trigger] scripts_prices(nodes, scripts, url)[i], url),
    decreases scripts.len(),
{
    if scripts.len() > 0 {
        lemma_scripts_prices_sound(nodes, scripts.drop_last(), url);
        let a = scripts_prices(nodes, scripts.drop_last(), url);
        let b = match spec_parse_json(inner_text(nodes, scripts.last())) {
            Ok(j) => value_prices(j, url),
            Err(_) => Seq::empty(),
        };
        match spec_parse_json(inner_text(nodes, scripts.last())) {
            Ok(j) => law_prices_sound(j, url),
            Err(_) => {},
        }
        assert forall|i: int| 0 <= i < (a + b).len() implies sound_price(#[trigger] (a + b)[i], url) by {
            if i < a.len() {
                assert((a + b)[i] == a[i]);
            } else {
                assert((a + b)[i] == b[i - a.len()]);
            }
        }
    }
}

/// Every price of a page is a positive TWD amount attributed to that page with the
/// starting-price scope; so is its starting price, which is the cheapest of them.
pub proof fn law_page_prices_sound(html: Seq<char>, url: Seq<char>)
    ensures
        forall|i: int| 0 <= i < page_prices(html, url).len() ==> sound_price(#[trigger] page_prices(html, url)[i], url),
        lowest(page_prices(html, url)) matches Some(p) ==> sound_price(p, url)
            && forall|i: int| 0 <= i < page_prices(html, url).len() ==> !dec_lt((#[trigger] page_prices(html, url)[i]).0, p.0),
{
    let nodes = spec_parse_dom(html);
    lemma_scripts_prices_sound(nodes, hits(mask_of(html, ld_selector()), 0, nodes.len() as int), url);
    crate::laws::law_lowest_price(page_prices(html, url));
    let ps = page_prices(html, url);
    match lowest(ps) {
        Some(p) => {
            let k = choose|k: int| 0 <= k < ps.len() && ps[k] == p;
            assert(sound_price(ps[k], url));
        },
        None => {},
    }
}

} // verus!
