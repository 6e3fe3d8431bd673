//! Discovery of the tables of an HTML document and their normalization.
//!
//! The traversal is specified against the named results of the HTML parser
//! (`crate::dom`): `extract_spec` is a spec-level function of the input text
//! alone, and `extract_tables` is proved to return exactly its value. Tables
//! are emitted in pre-order of nesting (a table before the tables nested in
//! its cells) and in document order among siblings; every emitted table is
//! rectangular; tables with no rows are discarded; a table whose grid width
//! would not fit in `usize` is discarded too. Element nesting deeper than
//! `DEPTH_LIMIT` levels is not descended into.

use vstd::prelude::*;
use vstd::string::StringExecFns;
use crate::dom;
use crate::dom::NodeClass;
use crate::normalize;
use crate::normalize::Cell;
use crate::normalize::CellModel;
use crate::spans;
use crate::text;

verus! {

/// Elements nested deeper than this many levels are not visited.
pub const DEPTH_LIMIT: u32 = 4096;

/// Which elements a scoped search collects.
#[derive(Clone, Copy)]
pub enum Target {
    Tables,
    Rows,
    Cells,
}

/// Whether an element with tag `tag` is what `target` collects.
pub open spec fn spec_target_matches(target: Target, tag: Seq<char>) -> bool {
    match target {
        Target::Tables => tag == "table"@,
        Target::Rows => tag == "tr"@,
        Target::Cells => tag == "td"@ || tag == "th"@,
    }
}

/// The elements `target` asks for under one candidate node: the node itself
/// where it matches, nothing where it is a nested table (a barrier), and the
/// elements found under it otherwise.
pub open spec fn scoped_node(
    n: ego_tree::NodeRef<scraper::Node>,
    target: Target,
    depth: u32,
) -> Seq<scraper::ElementRef>
    decreases depth, 0int, 0int,
{
    match dom::class_of(n) {
        NodeClass::Elem(el, tag) => if spec_target_matches(target, tag@) {
            seq![el]
        } else if tag@ == "table"@ {
            Seq::empty()
        } else if depth > 0 {
            scoped_nodes(dom::children_of(dom::node_of(el)), target, (depth - 1) as u32)
        } else {
            Seq::empty()
        },
        NodeClass::Text(_) => Seq::empty(),
        NodeClass::Other => Seq::empty(),
    }
}

/// The elements `target` asks for under a sequence of candidate nodes.
pub open spec fn scoped_nodes(
    ns: Seq<ego_tree::NodeRef<scraper::Node>>,
    target: Target,
    depth: u32,
) -> Seq<scraper::ElementRef>
    decreases depth, 1int, ns.len(),
{
    if ns.len() == 0 {
        Seq::empty()
    } else {
        scoped_node(ns[0], target, depth) + scoped_nodes(ns.drop_first(), target, depth)
    }
}

/// The text one node contributes to its cell: a text node's text, an
/// element's own text (nested tables excluded), nothing otherwise.
pub open spec fn node_text(n: ego_tree::NodeRef<scraper::Node>, depth: u32) -> Seq<char>
    decreases depth, 0int, 0int,
{
    match dom::class_of(n) {
        NodeClass::Text(s) => s@,
        NodeClass::Elem(el, tag) => if tag@ != "table"@ && depth > 0 {
            nodes_text(dom::children_of(dom::node_of(el)), (depth - 1) as u32)
        } else {
            Seq::empty()
        },
        NodeClass::Other => Seq::empty(),
    }
}

/// The concatenated text of a sequence of nodes, in document order.
pub open spec fn nodes_text(ns: Seq<ego_tree::NodeRef<scraper::Node>>, depth: u32) -> Seq<char>
    decreases depth, 1int, ns.len(),
{
    if ns.len() == 0 {
        Seq::empty()
    } else {
        node_text(ns[0], depth) + nodes_text(ns.drop_first(), depth)
    }
}

/// The cell a `<td>`/`<th>` element denotes: its trimmed own text and its
/// span attributes, each defaulting to one where missing or unusable.
pub open spec fn cell_model_of(el: scraper::ElementRef, depth: u32) -> CellModel {
    CellModel {
        content: text::trimmed(nodes_text(dom::children_of(dom::node_of(el)), depth)),
        colspan: spans::span_of_attr(dom::attr_of(el, "colspan"@)),
        rowspan: spans::span_of_attr(dom::attr_of(el, "rowspan"@)),
    }
}

/// The cells of one `<tr>` element, in document order.
pub open spec fn row_cells_of(row_el: scraper::ElementRef, depth: u32) -> Seq<CellModel> {
    scoped_nodes(dom::children_of(dom::node_of(row_el)), Target::Cells, depth).map_values(
        |c| cell_model_of(c, depth),
    )
}

/// The rows of one `<table>` element, in document order, not descending into
/// nested tables.
pub open spec fn table_rows_of(table_el: scraper::ElementRef, depth: u32) -> Seq<Seq<CellModel>> {
    scoped_nodes(dom::children_of(dom::node_of(table_el)), Target::Rows, depth).map_values(
        |r| row_cells_of(r, depth),
    )
}

/// What one table contributes on its own: its normalized grid, unless it has
/// no rows or its width would not fit in `usize`.
pub open spec fn own_output(table_el: scraper::ElementRef, depth: u32) -> Seq<Seq<Seq<Seq<char>>>> {
    let rows = table_rows_of(table_el, depth);
    if normalize::grid_width(rows) <= usize::MAX as int && normalize::table_text(rows).len() > 0 {
        seq![normalize::table_text(rows)]
    } else {
        Seq::empty()
    }
}

/// What one table contributes in all: its own grid, then the grids of the
/// tables nested in its cells, recursively, in document order — a pre-order
/// traversal of the nesting relation.
pub open spec fn table_output(table_el: scraper::ElementRef, depth: u32) -> Seq<
    Seq<Seq<Seq<char>>>,
>
    decreases depth, 0int, 0int,
{
    own_output(table_el, depth) + (if depth > 0 {
        tables_output(
            scoped_nodes(dom::children_of(dom::node_of(table_el)), Target::Tables, depth),
            (depth - 1) as u32,
        )
    } else {
        Seq::empty()
    })
}

/// What a sequence of tables contributes, in order.
pub open spec fn tables_output(els: Seq<scraper::ElementRef>, depth: u32) -> Seq<
    Seq<Seq<Seq<char>>>,
>
    decreases depth, 1int, els.len(),
{
    if els.len() == 0 {
        Seq::empty()
    } else {
        table_output(els[0], depth) + tables_output(els.drop_first(), depth)
    }
}

/// The outermost tables under the document's root nodes, in document order.
pub open spec fn roots_tables(
    roots: Seq<ego_tree::NodeRef<scraper::Node>>,
    depth: u32,
) -> Seq<scraper::ElementRef>
    decreases roots.len(),
{
    if roots.len() == 0 {
        Seq::empty()
    } else {
        scoped_nodes(dom::children_of(roots[0]), Target::Tables, depth) + roots_tables(
            roots.drop_first(),
            depth,
        )
    }
}

/// The entire extraction as a function of the input text: parse, find the
/// outermost tables, and emit each one's normalized grids in pre-order.
pub open spec fn extract_spec(html: Seq<char>) -> Seq<Seq<Seq<Seq<char>>>> {
    let doc = dom::parse_of(html);
    tables_output(roots_tables(dom::root_nodes_of(&doc), DEPTH_LIMIT), DEPTH_LIMIT)
}

fn target_matches(target: Target, tag: &String) -> (r: bool)
    ensures
        r == spec_target_matches(target, tag@),
{
    match target {
        Target::Tables => text::str_eq(tag.as_str(), "table"),
        Target::Rows => text::str_eq(tag.as_str(), "tr"),
        Target::Cells => text::str_eq(tag.as_str(), "td") || text::str_eq(tag.as_str(), "th"),
    }
}

/// Collect, under `n`, the elements `target` asks for, in document order,
/// descending neither into matched elements nor into nested tables.
#[verifier::loop_isolation(false)]
fn collect_scoped<'a>(
    n: &ego_tree::NodeRef<'a, scraper::Node>,
    target: Target,
    out: &mut Vec<scraper::ElementRef<'a>>,
    depth: u32,
)
    ensures
        final(out)@ == old(out)@ + scoped_nodes(dom::children_of(*n), target, depth),
    decreases depth,
{
    let children = dom::child_nodes(n);
    let ghost cs = dom::children_of(*n);
    let mut i: usize = 0;
    proof {
        assert(cs.skip(0) =~= cs);
    }
    while i < children.len()
        invariant
            i as int <= cs.len(),
            out@ + scoped_nodes(cs.skip(i as int), target, depth) =~= old(out)@ + scoped_nodes(
                cs,
                target,
                depth,
            ),
        decreases children@.len() - i,
    {
        proof {
            assert(cs.skip(i as int)[0] == cs[i as int]);
            assert(cs.skip(i as int).drop_first() =~= cs.skip(i as int + 1));
        }
        let ghost snap = out@;
        match dom::classify(&children[i]) {
            NodeClass::Elem(el, tag) => {
                proof {
                    assert(dom::class_of(cs[i as int]) == NodeClass::Elem(el, tag));
                }
                if target_matches(target, &tag) {
                    proof {
                        assert(scoped_node(cs[i as int], target, depth) =~= seq![el]);
                    }
                    out.push(el);
                    proof {
                        assert(out@ =~= snap + seq![el]);
                        assert(snap + (seq![el] + scoped_nodes(cs.skip(i as int + 1), target, depth))
                            =~= (snap + seq![el]) + scoped_nodes(cs.skip(i as int + 1), target, depth));
                    }
                } else if text::str_eq(tag.as_str(), "table") {
                    // a nested table is a barrier for every search
                    proof {
                        assert(scoped_node(cs[i as int], target, depth) =~= Seq::<
                            scraper::ElementRef,
                        >::empty());
                    }
                } else if depth > 0 {
                    let node = dom::element_node(&el);
                    collect_scoped(&node, target, out, depth - 1);
                    proof {
                        assert(scoped_node(cs[i as int], target, depth) == scoped_nodes(
                            dom::children_of(dom::node_of(el)),
                            target,
                            (depth - 1) as u32,
                        ));
                        assert(snap + (scoped_node(cs[i as int], target, depth) + scoped_nodes(
                            cs.skip(i as int + 1),
                            target,
                            depth,
                        )) =~= (snap + scoped_node(cs[i as int], target, depth)) + scoped_nodes(
                            cs.skip(i as int + 1),
                            target,
                            depth,
                        ));
                    }
                } else {
                    proof {
                        assert(scoped_node(cs[i as int], target, depth) =~= Seq::<
                            scraper::ElementRef,
                        >::empty());
                    }
                }
            },
            NodeClass::Text(_) => {
                proof {
                    assert(dom::class_of(cs[i as int]) is Text);
                }
            },
            NodeClass::Other => {
                proof {
                    assert(dom::class_of(cs[i as int]) is Other);
                }
            },
        }
        i = i + 1;
    }
    proof {
        assert(cs.skip(cs.len() as int) =~= Seq::<ego_tree::NodeRef<scraper::Node>>::empty());
    }
}

/// Concatenate the text nodes under `n` in document order, not descending
/// into nested tables, so a cell's text excludes the tables it contains.
#[verifier::loop_isolation(false)]
fn own_text_into(n: &ego_tree::NodeRef<'_, scraper::Node>, acc: &mut String, depth: u32)
    ensures
        final(acc)@ == old(acc)@ + nodes_text(dom::children_of(*n), depth),
    decreases depth,
{
    let children = dom::child_nodes(n);
    let ghost cs = dom::children_of(*n);
    let mut i: usize = 0;
    proof {
        assert(cs.skip(0) =~= cs);
    }
    while i < children.len()
        invariant
            i as int <= cs.len(),
            acc@ + nodes_text(cs.skip(i as int), depth) =~= old(acc)@ + nodes_text(cs, depth),
        decreases children@.len() - i,
    {
        proof {
            assert(cs.skip(i as int)[0] == cs[i as int]);
            assert(cs.skip(i as int).drop_first() =~= cs.skip(i as int + 1));
        }
        let ghost snap = acc@;
        match dom::classify(&children[i]) {
            NodeClass::Text(s) => {
                proof {
                    assert(dom::class_of(cs[i as int]) == NodeClass::Text(s));
                }
                acc.append(s.as_str());
                proof {
                    assert(snap + (s@ + nodes_text(cs.skip(i as int + 1), depth)) =~= (snap + s@)
                        + nodes_text(cs.skip(i as int + 1), depth));
                }
            },
            NodeClass::Elem(el, tag) => {
                proof {
                    assert(dom::class_of(cs[i as int]) == NodeClass::Elem(el, tag));
                }
                if !text::str_eq(tag.as_str(), "table") && depth > 0 {
                    let node = dom::element_node(&el);
                    own_text_into(&node, acc, depth - 1);
                    proof {
                        assert(node_text(cs[i as int], depth) == nodes_text(
                            dom::children_of(dom::node_of(el)),
                            (depth - 1) as u32,
                        ));
                        assert(snap + (node_text(cs[i as int], depth) + nodes_text(
                            cs.skip(i as int + 1),
                            depth,
                        )) =~= (snap + node_text(cs[i as int], depth)) + nodes_text(
                            cs.skip(i as int + 1),
                            depth,
                        ));
                    }
                } else {
                    proof {
                        assert(node_text(cs[i as int], depth) =~= Seq::<char>::empty());
                    }
                }
            },
            NodeClass::Other => {
                proof {
                    assert(dom::class_of(cs[i as int]) is Other);
                }
            },
        }
        i = i + 1;
    }
    proof {
        assert(cs.skip(cs.len() as int) =~= Seq::<ego_tree::NodeRef<scraper::Node>>::empty());
    }
}

/// Read the `colspan` and `rowspan` attributes of a cell element; each
/// defaults to one where it is missing, not a digit string, zero, or out of
/// range.
pub fn get_cell_spans(cell: &scraper::ElementRef<'_>) -> (r: (usize, usize))
    ensures
        r.0 as int == spans::span_of_attr(dom::attr_of(*cell, "colspan"@)),
        r.1 as int == spans::span_of_attr(dom::attr_of(*cell, "rowspan"@)),
        r.0 >= 1,
        r.1 >= 1,
{
    let ca = dom::attr_value(cell, "colspan");
    let ra = dom::attr_value(cell, "rowspan");
    (spans::parse_span(&ca), spans::parse_span(&ra))
}

/// All rows of `t` have the same number of cells.
pub open spec fn rectangular(t: Vec<Vec<String>>) -> bool {
    forall|i: int, j: int|
        #![trigger t@[i], t@[j]]
        0 <= i < t@.len() && 0 <= j < t@.len() ==> t@[i]@.len() == t@[j]@.len()
}

/// Normalize the table rooted at `table_el` and append it to `out` (unless it
/// has no rows or its width would not fit in `usize`), then, recursively,
/// every table nested in its cells, in document order: exactly
/// `table_output(*table_el, depth)`.
#[verifier::loop_isolation(false)]
fn process_table<'a>(table_el: &scraper::ElementRef<'a>, out: &mut Vec<Vec<Vec<String>>>, depth: u32)
    ensures
        normalize::tables_view(final(out)@) == normalize::tables_view(old(out)@) + table_output(
            *table_el,
            depth,
        ),
        final(out)@.len() >= old(out)@.len(),
        forall|k: int| 0 <= k < old(out)@.len() ==> final(out)@[k] == old(out)@[k],
        forall|k: int|
            old(out)@.len() <= k < final(out)@.len() ==> rectangular(#[trigger] final(out)@[k])
                && final(out)@[k]@.len() > 0,
    decreases depth,
{
    let tnode = dom::element_node(table_el);
    let mut row_els: Vec<scraper::ElementRef> = Vec::new();
    collect_scoped(&tnode, Target::Rows, &mut row_els, depth);
    let mut nested: Vec<scraper::ElementRef> = Vec::new();
    collect_scoped(&tnode, Target::Tables, &mut nested, depth);
    let ghost trs = table_rows_of(*table_el, depth);
    proof {
        assert(row_els@ =~= scoped_nodes(
            dom::children_of(dom::node_of(*table_el)),
            Target::Rows,
            depth,
        ));
        assert(trs.len() == row_els@.len());
    }
    let mut src_rows: Vec<Vec<Cell>> = Vec::new();
    let mut i: usize = 0;
    proof {
        assert(normalize::rows_view(src_rows@) =~= trs.take(0));
    }
    while i < row_els.len()
        invariant
            i as int <= row_els@.len(),
            normalize::rows_view(src_rows@) =~= trs.take(i as int),
        decreases row_els@.len() - i,
    {
        let rnode = dom::element_node(&row_els[i]);
        let mut cell_els: Vec<scraper::ElementRef> = Vec::new();
        collect_scoped(&rnode, Target::Cells, &mut cell_els, depth);
        let ghost rcs = row_cells_of(row_els@[i as int], depth);
        proof {
            assert(cell_els@ =~= scoped_nodes(
                dom::children_of(dom::node_of(row_els@[i as int])),
                Target::Cells,
                depth,
            ));
            assert(rcs.len() == cell_els@.len());
        }
        let mut cells: Vec<Cell> = Vec::new();
        let mut j: usize = 0;
        proof {
            assert(normalize::cells_view(cells@) =~= rcs.take(0));
        }
        while j < cell_els.len()
            invariant
                j as int <= cell_els@.len(),
                normalize::cells_view(cells@) =~= rcs.take(j as int),
            decreases cell_els@.len() - j,
        {
            let spans_pair = get_cell_spans(&cell_els[j]);
            let cnode = dom::element_node(&cell_els[j]);
            let mut raw = String::new();
            own_text_into(&cnode, &mut raw, depth);
            let cell = Cell {
                content: text::trim_string(&raw),
                colspan: spans_pair.0,
                rowspan: spans_pair.1,
            };
            proof {
                assert(cell@ == cell_model_of(cell_els@[j as int], depth));
                assert(rcs[j as int] == cell_model_of(cell_els@[j as int], depth));
                normalize::lemma_cells_view_push(cells@, cell);
                assert(rcs.take(j as int + 1) =~= rcs.take(j as int).push(rcs[j as int]));
            }
            cells.push(cell);
            j = j + 1;
        }
        proof {
            assert(rcs.take(cell_els@.len() as int) =~= rcs);
            assert(normalize::cells_view(cells@) == rcs);
            normalize::lemma_rows_view_push(src_rows@, cells);
            assert(trs[i as int] == rcs);
            assert(trs.take(i as int + 1) =~= trs.take(i as int).push(trs[i as int]));
        }
        src_rows.push(cells);
        i = i + 1;
    }
    proof {
        assert(trs.take(row_els@.len() as int) =~= trs);
        assert(normalize::rows_view(src_rows@) == trs);
        lemma_spec_rows_wf(*table_el, depth);
    }
    let res = normalize::normalize_table(&src_rows);
    let ghost before_nested = out@;
    if res.is_some() {
        let t = res.unwrap();
        if t.len() > 0 {
            proof {
                assert(rectangular(t));
                normalize::lemma_tables_view_push(out@, t);
            }
            out.push(t);
        }
    }
    proof {
        assert(normalize::tables_view(out@) =~= normalize::tables_view(old(out)@) + own_output(
            *table_el,
            depth,
        ));
        assert(nested@ =~= scoped_nodes(
            dom::children_of(dom::node_of(*table_el)),
            Target::Tables,
            depth,
        ));
    }
    if depth > 0 {
        let ghost target_view = normalize::tables_view(old(out)@) + table_output(*table_el, depth);
        let mut k: usize = 0;
        proof {
            assert(nested@.skip(0) =~= nested@);
            assert(normalize::tables_view(out@) + tables_output(nested@, (depth - 1) as u32)
                =~= target_view);
        }
        while k < nested.len()
            invariant
                k as int <= nested@.len(),
                normalize::tables_view(out@) + tables_output(
                    nested@.skip(k as int),
                    (depth - 1) as u32,
                ) =~= target_view,
                out@.len() >= old(out)@.len(),
                forall|q: int| 0 <= q < old(out)@.len() ==> out@[q] == old(out)@[q],
                forall|q: int|
                    old(out)@.len() <= q < out@.len() ==> rectangular(#[trigger] out@[q])
                        && out@[q]@.len() > 0,
            decreases nested@.len() - k,
        {
            proof {
                assert(nested@.skip(k as int)[0] == nested@[k as int]);
                assert(nested@.skip(k as int).drop_first() =~= nested@.skip(k as int + 1));
            }
            let ghost snap = out@;
            process_table(&nested[k], out, depth - 1);
            proof {
                assert(normalize::tables_view(snap) + (table_output(
                    nested@[k as int],
                    (depth - 1) as u32,
                ) + tables_output(nested@.skip(k as int + 1), (depth - 1) as u32)) =~= (
                normalize::tables_view(snap) + table_output(nested@[k as int], (depth - 1) as u32))
                    + tables_output(nested@.skip(k as int + 1), (depth - 1) as u32));
            }
            k = k + 1;
        }
        proof {
            assert(nested@.skip(nested@.len() as int) =~= Seq::<scraper::ElementRef>::empty());
        }
    }
}

/// View of a list of trace lines.
pub open spec fn lines_view(ls: Seq<String>) -> Seq<Seq<char>> {
    ls.map_values(|s: String| s@)
}

pub proof fn lemma_lines_view_push(ls: Seq<String>, s: String)
    ensures
        lines_view(ls.push(s)) =~= lines_view(ls).push(s@),
{
    assert forall|i: int| 0 <= i < ls.len() + 1 implies lines_view(ls.push(s))[i] == lines_view(
        ls,
    ).push(s@)[i] by {
        if i < ls.len() {
            assert(ls.push(s)[i] == ls[i]);
        } else {
            assert(ls.push(s)[i] == s);
        }
    }
}

/// The grid-construction trace of one table: one line per committed row.
pub open spec fn table_trace_lines(rows: Seq<Seq<CellModel>>) -> Seq<Seq<char>> {
    Seq::new(
        rows.len(),
        |i: int|
            normalize::row_trace(
                normalize::grid_state(rows.take(i + 1)).1,
                normalize::grid_state(rows.take(i + 1)).0[i],
            ),
    )
}

/// The trace one table element contributes: its own grid's construction,
/// then the traces of the tables nested in its cells, in document order.
pub open spec fn table_trace(table_el: scraper::ElementRef, depth: u32) -> Seq<Seq<char>>
    decreases depth, 0int, 0int,
{
    let rows = table_rows_of(table_el, depth);
    (if normalize::grid_width(rows) <= usize::MAX as int {
        table_trace_lines(rows)
    } else {
        Seq::empty()
    }) + (if depth > 0 {
        tables_trace(
            scoped_nodes(dom::children_of(dom::node_of(table_el)), Target::Tables, depth),
            (depth - 1) as u32,
        )
    } else {
        Seq::empty()
    })
}

/// The traces of a sequence of tables, in order.
pub open spec fn tables_trace(els: Seq<scraper::ElementRef>, depth: u32) -> Seq<Seq<char>>
    decreases depth, 1int, els.len(),
{
    if els.len() == 0 {
        Seq::empty()
    } else {
        table_trace(els[0], depth) + tables_trace(els.drop_first(), depth)
    }
}

/// The whole extraction's trace as a function of the input text.
pub open spec fn extract_trace_spec(html: Seq<char>) -> Seq<Seq<char>> {
    let doc = dom::parse_of(html);
    tables_trace(roots_tables(dom::root_nodes_of(&doc), DEPTH_LIMIT), DEPTH_LIMIT)
}

/// Append the grid-construction trace of the table rooted at `table_el`,
/// then, recursively, of every table nested in its cells.
#[verifier::loop_isolation(false)]
fn process_trace<'a>(table_el: &scraper::ElementRef<'a>, out: &mut Vec<String>, depth: u32)
    ensures
        lines_view(final(out)@) == lines_view(old(out)@) + table_trace(*table_el, depth),
    decreases depth,
{
    let tnode = dom::element_node(table_el);
    let mut row_els: Vec<scraper::ElementRef> = Vec::new();
    collect_scoped(&tnode, Target::Rows, &mut row_els, depth);
    let mut nested: Vec<scraper::ElementRef> = Vec::new();
    collect_scoped(&tnode, Target::Tables, &mut nested, depth);
    let ghost trs = table_rows_of(*table_el, depth);
    proof {
        assert(row_els@ =~= scoped_nodes(
            dom::children_of(dom::node_of(*table_el)),
            Target::Rows,
            depth,
        ));
        assert(trs.len() == row_els@.len());
    }
    let mut src_rows: Vec<Vec<Cell>> = Vec::new();
    let mut i: usize = 0;
    proof {
        assert(normalize::rows_view(src_rows@) =~= trs.take(0));
    }
    while i < row_els.len()
        invariant
            i as int <= row_els@.len(),
            normalize::rows_view(src_rows@) =~= trs.take(i as int),
        decreases row_els@.len() - i,
    {
        let rnode = dom::element_node(&row_els[i]);
        let mut cell_els: Vec<scraper::ElementRef> = Vec::new();
        collect_scoped(&rnode, Target::Cells, &mut cell_els, depth);
        let ghost rcs = row_cells_of(row_els@[i as int], depth);
        proof {
            assert(cell_els@ =~= scoped_nodes(
                dom::children_of(dom::node_of(row_els@[i as int])),
                Target::Cells,
                depth,
            ));
            assert(rcs.len() == cell_els@.len());
        }
        let mut cells: Vec<Cell> = Vec::new();
        let mut j: usize = 0;
        proof {
            assert(normalize::cells_view(cells@) =~= rcs.take(0));
        }
        while j < cell_els.len()
            invariant
                j as int <= cell_els@.len(),
                normalize::cells_view(cells@) =~= rcs.take(j as int),
            decreases cell_els@.len() - j,
        {
            let spans_pair = get_cell_spans(&cell_els[j]);
            let cnode = dom::element_node(&cell_els[j]);
            let mut raw = String::new();
            own_text_into(&cnode, &mut raw, depth);
            let cell = Cell {
                content: text::trim_string(&raw),
                colspan: spans_pair.0,
                rowspan: spans_pair.1,
            };
            proof {
                assert(cell@ == cell_model_of(cell_els@[j as int], depth));
                assert(rcs[j as int] == cell_model_of(cell_els@[j as int], depth));
                normalize::lemma_cells_view_push(cells@, cell);
                assert(rcs.take(j as int + 1) =~= rcs.take(j as int).push(rcs[j as int]));
            }
            cells.push(cell);
            j = j + 1;
        }
        proof {
            assert(rcs.take(cell_els@.len() as int) =~= rcs);
            assert(normalize::cells_view(cells@) == rcs);
            normalize::lemma_rows_view_push(src_rows@, cells);
            assert(trs[i as int] == rcs);
            assert(trs.take(i as int + 1) =~= trs.take(i as int).push(trs[i as int]));
        }
        src_rows.push(cells);
        i = i + 1;
    }
    proof {
        assert(trs.take(row_els@.len() as int) =~= trs);
        assert(normalize::rows_view(src_rows@) == trs);
        lemma_spec_rows_wf(*table_el, depth);
    }
    let res = normalize::trace_table(&src_rows);
    if res.is_some() {
        let ls = res.unwrap();
        let mut q: usize = 0;
        let ghost own = table_trace_lines(trs);
        proof {
            assert(ls@.len() == own.len());
            assert(forall|a: int| 0 <= a < own.len() ==> (#[trigger] ls@[a]@) == own[a]);
        }
        while q < ls.len()
            invariant
                q as int <= ls@.len(),
                lines_view(out@) =~= lines_view(old(out)@) + own.take(q as int),
            decreases ls@.len() - q,
        {
            proof {
                lemma_lines_view_push(out@, ls@[q as int]);
                assert(own.take(q as int + 1) =~= own.take(q as int).push(own[q as int]));
            }
            let line = ls[q].clone();
            out.push(line);
            q = q + 1;
        }
        proof {
            assert(own.take(own.len() as int) =~= own);
        }
    }
    proof {
        assert(lines_view(out@) =~= lines_view(old(out)@) + (if normalize::grid_width(trs)
            <= usize::MAX as int {
            table_trace_lines(trs)
        } else {
            Seq::<Seq<char>>::empty()
        }));
        assert(nested@ =~= scoped_nodes(
            dom::children_of(dom::node_of(*table_el)),
            Target::Tables,
            depth,
        ));
    }
    if depth > 0 {
        let ghost target_view = lines_view(old(out)@) + table_trace(*table_el, depth);
        let mut k: usize = 0;
        proof {
            assert(nested@.skip(0) =~= nested@);
            assert(lines_view(out@) + tables_trace(nested@, (depth - 1) as u32) =~= target_view);
        }
        while k < nested.len()
            invariant
                k as int <= nested@.len(),
                lines_view(out@) + tables_trace(nested@.skip(k as int), (depth - 1) as u32)
                    =~= target_view,
            decreases nested@.len() - k,
        {
            proof {
                assert(nested@.skip(k as int)[0] == nested@[k as int]);
                assert(nested@.skip(k as int).drop_first() =~= nested@.skip(k as int + 1));
            }
            let ghost snap = out@;
            process_trace(&nested[k], out, depth - 1);
            proof {
                assert(lines_view(snap) + (table_trace(nested@[k as int], (depth - 1) as u32)
                    + tables_trace(nested@.skip(k as int + 1), (depth - 1) as u32)) =~= (
                lines_view(snap) + table_trace(nested@[k as int], (depth - 1) as u32))
                    + tables_trace(nested@.skip(k as int + 1), (depth - 1) as u32));
            }
            k = k + 1;
        }
        proof {
            assert(nested@.skip(nested@.len() as int) =~= Seq::<scraper::ElementRef>::empty());
        }
    }
}

/// The grid-construction trace of every table of the HTML document `html`,
/// in the same order as `extract_tables` emits the tables: exactly
/// `extract_trace_spec(html@)`.
#[verifier::loop_isolation(false)]
pub fn extract_traces(html: &str) -> (lines: Vec<String>)
    ensures
        lines_view(lines@) == extract_trace_spec(html@),
{
    let doc = dom::parse_document(html);
    let roots = dom::root_children(&doc);
    let ghost rts = dom::root_nodes_of(&doc);
    let mut top: Vec<scraper::ElementRef> = Vec::new();
    let mut i: usize = 0;
    proof {
        assert(rts.skip(0) =~= rts);
    }
    while i < roots.len()
        invariant
            i as int <= rts.len(),
            top@ + roots_tables(rts.skip(i as int), DEPTH_LIMIT) =~= roots_tables(
                rts,
                DEPTH_LIMIT,
            ),
        decreases roots@.len() - i,
    {
        proof {
            assert(rts.skip(i as int)[0] == rts[i as int]);
            assert(rts.skip(i as int).drop_first() =~= rts.skip(i as int + 1));
        }
        let ghost snap = top@;
        collect_scoped(&roots[i], Target::Tables, &mut top, DEPTH_LIMIT);
        proof {
            assert(snap + (scoped_nodes(
                dom::children_of(rts[i as int]),
                Target::Tables,
                DEPTH_LIMIT,
            ) + roots_tables(rts.skip(i as int + 1), DEPTH_LIMIT)) =~= (snap + scoped_nodes(
                dom::children_of(rts[i as int]),
                Target::Tables,
                DEPTH_LIMIT,
            )) + roots_tables(rts.skip(i as int + 1), DEPTH_LIMIT));
        }
        i = i + 1;
    }
    proof {
        assert(rts.skip(rts.len() as int) =~= Seq::<ego_tree::NodeRef<scraper::Node>>::empty());
        assert(top@ == roots_tables(rts, DEPTH_LIMIT));
    }
    let mut lines: Vec<String> = Vec::new();
    let mut k: usize = 0;
    proof {
        assert(top@.skip(0) =~= top@);
        assert(lines_view(lines@) =~= Seq::<Seq<char>>::empty());
    }
    while k < top.len()
        invariant
            k as int <= top@.len(),
            lines_view(lines@) + tables_trace(top@.skip(k as int), DEPTH_LIMIT) =~= tables_trace(
                top@,
                DEPTH_LIMIT,
            ),
        decreases top@.len() - k,
    {
        proof {
            assert(top@.skip(k as int)[0] == top@[k as int]);
            assert(top@.skip(k as int).drop_first() =~= top@.skip(k as int + 1));
        }
        let ghost snap = lines@;
        process_trace(&top[k], &mut lines, DEPTH_LIMIT);
        proof {
            assert(lines_view(snap) + (table_trace(top@[k as int], DEPTH_LIMIT) + tables_trace(
                top@.skip(k as int + 1),
                DEPTH_LIMIT,
            )) =~= (lines_view(snap) + table_trace(top@[k as int], DEPTH_LIMIT)) + tables_trace(
                top@.skip(k as int + 1),
                DEPTH_LIMIT,
            ));
        }
        k = k + 1;
    }
    proof {
        assert(top@.skip(top@.len() as int) =~= Seq::<scraper::ElementRef>::empty());
        assert(lines_view(lines@) == tables_trace(top@, DEPTH_LIMIT));
        assert(lines_view(lines@) == extract_trace_spec(html@));
    }
    lines
}

/// Every cell the traversal builds has spans of at least one.
proof fn lemma_spec_rows_wf(table_el: scraper::ElementRef, depth: u32)
    ensures
        normalize::rows_wf(table_rows_of(table_el, depth)),
{
    let trs = table_rows_of(table_el, depth);
    assert forall|a: int| 0 <= a < trs.len() implies normalize::wf_cells(#[trigger] trs[a]) by {
        let rcs = trs[a];
        assert forall|b: int| 0 <= b < rcs.len() implies normalize::wf_cell(
            #[trigger] rcs[b],
        ) by {
            let els = scoped_nodes(
                dom::children_of(dom::node_of(table_el)),
                Target::Rows,
                depth,
            );
            assert(rcs == row_cells_of(els[a], depth));
            let cels = scoped_nodes(
                dom::children_of(dom::node_of(els[a])),
                Target::Cells,
                depth,
            );
            assert(rcs[b] == cell_model_of(cels[b], depth));
        }
    }
}

/// Extract every table of the HTML document `html`: exactly
/// `extract_spec(html@)` — the outermost tables in document order, each
/// followed by the tables nested in it (pre-order), each normalized to a
/// rectangular grid of trimmed cell texts; tables with no rows, and tables
/// whose width would not fit in `usize`, are discarded.
#[verifier::loop_isolation(false)]
pub fn extract_tables(html: &str) -> (tables: Vec<Vec<Vec<String>>>)
    ensures
        normalize::tables_view(tables@) == extract_spec(html@),
        forall|k: int|
            0 <= k < tables@.len() ==> rectangular(#[trigger] tables@[k]) && tables@[k]@.len() > 0,
{
    let doc = dom::parse_document(html);
    let roots = dom::root_children(&doc);
    let ghost rts = dom::root_nodes_of(&doc);
    let mut top: Vec<scraper::ElementRef> = Vec::new();
    let mut i: usize = 0;
    proof {
        assert(rts.skip(0) =~= rts);
    }
    while i < roots.len()
        invariant
            i as int <= rts.len(),
            top@ + roots_tables(rts.skip(i as int), DEPTH_LIMIT) =~= roots_tables(
                rts,
                DEPTH_LIMIT,
            ),
        decreases roots@.len() - i,
    {
        proof {
            assert(rts.skip(i as int)[0] == rts[i as int]);
            assert(rts.skip(i as int).drop_first() =~= rts.skip(i as int + 1));
        }
        let ghost snap = top@;
        collect_scoped(&roots[i], Target::Tables, &mut top, DEPTH_LIMIT);
        proof {
            assert(snap + (scoped_nodes(
                dom::children_of(rts[i as int]),
                Target::Tables,
                DEPTH_LIMIT,
            ) + roots_tables(rts.skip(i as int + 1), DEPTH_LIMIT)) =~= (snap + scoped_nodes(
                dom::children_of(rts[i as int]),
                Target::Tables,
                DEPTH_LIMIT,
            )) + roots_tables(rts.skip(i as int + 1), DEPTH_LIMIT));
        }
        i = i + 1;
    }
    proof {
        assert(rts.skip(rts.len() as int) =~= Seq::<ego_tree::NodeRef<scraper::Node>>::empty());
        assert(top@ == roots_tables(rts, DEPTH_LIMIT));
    }
    let mut tables: Vec<Vec<Vec<String>>> = Vec::new();
    let mut k: usize = 0;
    proof {
        assert(top@.skip(0) =~= top@);
        assert(normalize::tables_view(tables@) =~= Seq::<Seq<Seq<Seq<char>>>>::empty());
    }
    while k < top.len()
        invariant
            k as int <= top@.len(),
            normalize::tables_view(tables@) + tables_output(top@.skip(k as int), DEPTH_LIMIT)
                =~= tables_output(top@, DEPTH_LIMIT),
            forall|q: int|
                0 <= q < tables@.len() ==> rectangular(#[trigger] tables@[q]) && tables@[q]@.len()
                    > 0,
        decreases top@.len() - k,
    {
        proof {
            assert(top@.skip(k as int)[0] == top@[k as int]);
            assert(top@.skip(k as int).drop_first() =~= top@.skip(k as int + 1));
        }
        let ghost snap = tables@;
        process_table(&top[k], &mut tables, DEPTH_LIMIT);
        proof {
            assert(normalize::tables_view(snap) + (table_output(top@[k as int], DEPTH_LIMIT)
                + tables_output(top@.skip(k as int + 1), DEPTH_LIMIT)) =~= (normalize::tables_view(
                snap,
            ) + table_output(top@[k as int], DEPTH_LIMIT)) + tables_output(
                top@.skip(k as int + 1),
                DEPTH_LIMIT,
            ));
        }
        k = k + 1;
    }
    proof {
        assert(top@.skip(top@.len() as int) =~= Seq::<scraper::ElementRef>::empty());
        assert(normalize::tables_view(tables@) == tables_output(top@, DEPTH_LIMIT));
        assert(normalize::tables_view(tables@) == extract_spec(html@));
    }
    tables
}

} // verus!
