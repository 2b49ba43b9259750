//! The document outline shown by an editor: the front matter, the
//! document's headings, tables and figures, each heading holding the
//! symbols that follow it up to the next heading of the same or a lower
//! level.
//!
//! The outline is returned flat, in document order, each symbol with the
//! index of the heading that holds it; a symbol's children are the later
//! symbols that name it as their parent, in order. Tables are `TABLE`
//! nodes, their caption the trimmed text of a `TABLE_CAPTION` child; a
//! figure is an `IMAGE_LINK` child of a `FIGURE` or `PARAGRAPH` block, its
//! alternative text the text of the image's `IMAGE_ALT` child.

use vstd::prelude::*;
use crate::folding::{get_heading_level, heading_level_spec};
use crate::locate::{child_elements, child_list};
use crate::outline::{outline_parents, parent_spec, OutlineEntry};
use crate::syntax::{children_of, element_text, first_child_node, lemma_kids, ElementView, SyntaxKind, SyntaxTree};
use crate::text::{chars_of, string_from_chars, trim_ws, vec_trim};
use crate::workspace::{heading_title, heading_title_of};

verus! {

/// The kind of an outline symbol.
#[derive(Clone, Copy, Debug, PartialEq, Eq, Structural)]
pub enum DocSymbolKind {
    /// The front matter and headings.
    Namespace,
    /// Tables.
    Array,
    /// Figures.
    Object,
}

/// One outline symbol: its name, detail, kind and byte range, its heading
/// level (headings only) and the index of the heading holding it.
pub struct DocSymbol {
    pub name: String,
    pub detail: Option<String>,
    pub kind: DocSymbolKind,
    pub start: usize,
    pub end: usize,
    pub level: Option<usize>,
    pub parent: Option<usize>,
}

/// The view of an outline symbol, before parents are assigned.
pub struct SymbolView {
    pub name: Seq<char>,
    pub detail: Option<Seq<char>>,
    pub kind: DocSymbolKind,
    pub start: int,
    pub end: int,
    pub level: Option<nat>,
}

/// The symbol of image `img`: `Figure: ` and its alternative text, or
/// `Figure` when that is empty or missing.
pub open spec fn image_symbol(es: Seq<ElementView>, img: int) -> SymbolView {
    let alt = match first_child_node(es, img, SyntaxKind::IMAGE_ALT) {
        Some(a) => element_text(es, a),
        None => Seq::<char>::empty(),
    };
    SymbolView {
        name: if alt.len() > 0 {
            "Figure: "@ + alt
        } else {
            "Figure"@
        },
        detail: None,
        kind: DocSymbolKind::Object,
        start: es[img].start,
        end: es[img].end,
        level: None,
    }
}

/// The symbol of table `t`: `Table: ` and its caption, or `Table`.
pub open spec fn table_symbol(es: Seq<ElementView>, t: int) -> SymbolView {
    SymbolView {
        name: match first_child_node(es, t, SyntaxKind::TABLE_CAPTION) {
            Some(c) => "Table: "@ + trim_ws(element_text(es, c)),
            None => "Table"@,
        },
        detail: None,
        kind: DocSymbolKind::Array,
        start: es[t].start,
        end: es[t].end,
        level: None,
    }
}

/// The symbols of block `b`: a heading's own symbol, a table's, one per
/// image child of a figure or paragraph, none for other blocks.
pub open spec fn block_symbols(es: Seq<ElementView>, b: int) -> Seq<SymbolView> {
    if es[b].is_token {
        seq![]
    } else if es[b].kind == SyntaxKind::HEADING {
        seq![
            SymbolView {
                name: heading_title(es, b),
                detail: None,
                kind: DocSymbolKind::Namespace,
                start: es[b].start,
                end: es[b].end,
                level: Some(heading_level_spec(es, b)),
            },
        ]
    } else if es[b].kind == SyntaxKind::TABLE {
        seq![table_symbol(es, b)]
    } else if es[b].kind == SyntaxKind::FIGURE || es[b].kind == SyntaxKind::PARAGRAPH {
        children_of(es, b, SyntaxKind::IMAGE_LINK, false).map_values(|k: int| image_symbol(es, k))
    } else {
        seq![]
    }
}

/// The symbols of the first `n` blocks `cs`, in order.
pub open spec fn blocks_symbols(es: Seq<ElementView>, cs: Seq<int>, n: int) -> Seq<SymbolView>
    decreases n,
{
    if n <= 0 {
        seq![]
    } else {
        blocks_symbols(es, cs, n - 1) + block_symbols(es, cs[n - 1])
    }
}

/// The front matter's symbol: `YAML Frontmatter`, its detail the region's
/// id and, in brackets, its shape summary or `invalid YAML`.
pub open spec fn frontmatter_symbol(start: int, end: int, id: Seq<char>, summary: Option<Seq<char>>) -> SymbolView {
    SymbolView {
        name: "YAML Frontmatter"@,
        detail: Some(
            id + " ("@ + match summary {
                Some(s) => s,
                None => "invalid YAML"@,
            } + ")"@,
        ),
        kind: DocSymbolKind::Namespace,
        start,
        end,
        level: None,
    }
}

/// The outline's symbols in order: none unless the root is a document;
/// else the front matter's symbol, when there is front matter, then the
/// symbols of the document's blocks.
pub open spec fn outline_symbols(
    es: Seq<ElementView>,
    frontmatter: Option<(int, int, Seq<char>, Option<Seq<char>>)>,
) -> Seq<SymbolView> {
    if es[0].kind != SyntaxKind::DOCUMENT {
        seq![]
    } else {
        let cs = child_elements(es, 0, es[0].subtree_end);
        let front = match frontmatter {
            Some((s, e, id, summary)) => seq![frontmatter_symbol(s, e, id, summary)],
            None => seq![],
        };
        front + blocks_symbols(es, cs, cs.len() as int)
    }
}

/// The number of figure (`Object`) symbols in `vs`.
pub open spec fn object_count(vs: Seq<SymbolView>) -> nat
    decreases vs.len(),
{
    if vs.len() == 0 {
        0
    } else {
        object_count(vs.drop_last()) + if vs.last().kind == DocSymbolKind::Object {
            1nat
        } else {
            0nat
        }
    }
}

/// The image children of block `b` when it is a figure or a paragraph.
pub open spec fn block_images(es: Seq<ElementView>, b: int) -> nat {
    if !es[b].is_token && (es[b].kind == SyntaxKind::FIGURE || es[b].kind == SyntaxKind::PARAGRAPH) {
        children_of(es, b, SyntaxKind::IMAGE_LINK, false).len()
    } else {
        0
    }
}

/// The image children of the first `n` figure or paragraph blocks of `cs`.
pub open spec fn images_in_blocks(es: Seq<ElementView>, cs: Seq<int>, n: int) -> nat
    decreases n,
{
    if n <= 0 {
        0
    } else {
        images_in_blocks(es, cs, n - 1) + block_images(es, cs[n - 1])
    }
}

proof fn lemma_object_count_concat(a: Seq<SymbolView>, b: Seq<SymbolView>)
    ensures
        object_count(a + b) == object_count(a) + object_count(b),
    decreases b.len(),
{
    if b.len() == 0 {
        assert(a + b =~= a);
    } else {
        lemma_object_count_concat(a, b.drop_last());
        assert((a + b).drop_last() =~= a + b.drop_last());
        assert((a + b).last() == b.last());
    }
}

proof fn lemma_object_count_all(vs: Seq<SymbolView>)
    requires
        forall|i: int| 0 <= i < vs.len() ==> (#[trigger] vs[i]).kind == DocSymbolKind::Object,
    ensures
        object_count(vs) == vs.len(),
    decreases vs.len(),
{
    if vs.len() > 0 {
        lemma_object_count_all(vs.drop_last());
    }
}

/// A figure or paragraph block gives one figure symbol per image child, in
/// order, each spanning its image; and over the whole outline the figure
/// symbols are exactly as many as the image children of the document's
/// top-level figures and paragraphs.
pub proof fn lemma_one_figure_per_image(es: Seq<ElementView>, b: int, frontmatter: Option<(int, int, Seq<char>, Option<Seq<char>>)>)
    ensures
        !es[b].is_token && (es[b].kind == SyntaxKind::FIGURE || es[b].kind == SyntaxKind::PARAGRAPH) ==> {
            let imgs = children_of(es, b, SyntaxKind::IMAGE_LINK, false);
            &&& block_symbols(es, b).len() == imgs.len()
            &&& forall|i: int|
                0 <= i < imgs.len() ==> (#[trigger] block_symbols(es, b)[i]).kind == DocSymbolKind::Object
                    && block_symbols(es, b)[i].start == es[imgs[i]].start && block_symbols(es, b)[i].end
                    == es[imgs[i]].end
        },
        es[0].kind == SyntaxKind::DOCUMENT ==> object_count(outline_symbols(es, frontmatter))
            == images_in_blocks(
            es,
            child_elements(es, 0, es[0].subtree_end),
            child_elements(es, 0, es[0].subtree_end).len() as int,
        ),
{
    if es[0].kind == SyntaxKind::DOCUMENT {
        let cs = child_elements(es, 0, es[0].subtree_end);
        lemma_blocks_objects(es, cs, cs.len() as int);
        let front = match frontmatter {
            Some((s, e, id, summary)) => seq![frontmatter_symbol(s, e, id, summary)],
            None => seq![],
        };
        lemma_object_count_concat(front, blocks_symbols(es, cs, cs.len() as int));
        assert(object_count(Seq::<SymbolView>::empty()) == 0);
        if front.len() > 0 {
            assert(front.drop_last() =~= Seq::<SymbolView>::empty());
            assert(front.last().kind == DocSymbolKind::Namespace);
        }
        assert(outline_symbols(es, frontmatter) == front + blocks_symbols(es, cs, cs.len() as int));
    }
}

proof fn lemma_block_objects(es: Seq<ElementView>, b: int)
    ensures
        object_count(block_symbols(es, b)) == block_images(es, b),
{
    let bs = block_symbols(es, b);
    assert(object_count(Seq::<SymbolView>::empty()) == 0);
    if es[b].is_token {
        assert(bs.len() == 0);
    } else if es[b].kind == SyntaxKind::HEADING || es[b].kind == SyntaxKind::TABLE {
        assert(bs.len() == 1);
        assert(bs.drop_last() =~= Seq::<SymbolView>::empty());
        assert(bs.last().kind != DocSymbolKind::Object);
    } else if es[b].kind == SyntaxKind::FIGURE || es[b].kind == SyntaxKind::PARAGRAPH {
        let imgs = children_of(es, b, SyntaxKind::IMAGE_LINK, false);
        assert(bs == imgs.map_values(|k: int| image_symbol(es, k)));
        assert forall|i: int| 0 <= i < bs.len() implies (#[trigger] bs[i]).kind == DocSymbolKind::Object by {
            assert(bs[i] == image_symbol(es, imgs[i]));
        }
        lemma_object_count_all(bs);
    } else {
        assert(bs.len() == 0);
    }
}

proof fn lemma_blocks_objects(es: Seq<ElementView>, cs: Seq<int>, n: int)
    ensures
        object_count(blocks_symbols(es, cs, n)) == images_in_blocks(es, cs, n),
    decreases n,
{
    if n > 0 {
        lemma_blocks_objects(es, cs, n - 1);
        lemma_block_objects(es, cs[n - 1]);
        lemma_object_count_concat(blocks_symbols(es, cs, n - 1), block_symbols(es, cs[n - 1]));
    }
}

/// The nesting entries of symbols: headings by level, the rest items.
pub open spec fn symbol_entries(vs: Seq<SymbolView>) -> Seq<OutlineEntry> {
    vs.map_values(
        |v: SymbolView| match v.level {
            Some(l) => OutlineEntry::Heading(l as usize),
            None => OutlineEntry::Item,
        },
    )
}

/// The view of an outline symbol, without its parent.
pub open spec fn symbol_view(s: DocSymbol) -> SymbolView {
    SymbolView {
        name: s.name@,
        detail: match s.detail {
            Some(d) => Some(d@),
            None => None,
        },
        kind: s.kind,
        start: s.start as int,
        end: s.end as int,
        level: match s.level {
            Some(l) => Some(l as nat),
            None => None,
        },
    }
}

fn image_symbol_of(tree: &SyntaxTree, img: usize) -> (s: DocSymbol)
    requires
        img < tree@.len(),
    ensures
        symbol_view(s) == image_symbol(tree@, img as int),
        s.parent is None,
{
    let alt = match tree.first_child_node_of(img, SyntaxKind::IMAGE_ALT) {
        Some(a) => chars_of(tree.text(a).as_str()),
        None => Vec::new(),
    };
    let name = if alt.len() > 0 {
        let mut n = chars_of("Figure: ");
        let ghost head = n@;
        let mut i: usize = 0;
        while i < alt.len()
            invariant
                i <= alt@.len(),
                n@ == head + alt@.take(i as int),
            decreases alt.len() - i,
        {
            n.push(alt[i]);
            i = i + 1;
            assert(alt@.take(i as int) =~= alt@.take(i - 1).push(alt@[i - 1]));
        }
        assert(alt@.take(i as int) =~= alt@);
        string_from_chars(&n)
    } else {
        string_from_chars(&chars_of("Figure"))
    };
    DocSymbol {
        name,
        detail: None,
        kind: DocSymbolKind::Object,
        start: tree.start(img),
        end: tree.end(img),
        level: None,
        parent: None,
    }
}

fn table_symbol_of(tree: &SyntaxTree, t: usize) -> (s: DocSymbol)
    requires
        t < tree@.len(),
    ensures
        symbol_view(s) == table_symbol(tree@, t as int),
        s.parent is None,
{
    let name = match tree.first_child_node_of(t, SyntaxKind::TABLE_CAPTION) {
        Some(c) => {
            let cap = vec_trim(&chars_of(tree.text(c).as_str()));
            let mut n = chars_of("Table: ");
            let ghost head = n@;
            let mut i: usize = 0;
            while i < cap.len()
                invariant
                    i <= cap@.len(),
                    n@ == head + cap@.take(i as int),
                decreases cap.len() - i,
            {
                n.push(cap[i]);
                i = i + 1;
                assert(cap@.take(i as int) =~= cap@.take(i - 1).push(cap@[i - 1]));
            }
            assert(cap@.take(i as int) =~= cap@);
            string_from_chars(&n)
        },
        None => string_from_chars(&chars_of("Table")),
    };
    DocSymbol {
        name,
        detail: None,
        kind: DocSymbolKind::Array,
        start: tree.start(t),
        end: tree.end(t),
        level: None,
        parent: None,
    }
}

/// Appends the symbols of block `b` to `out`.
fn push_block_symbols(tree: &SyntaxTree, b: usize, out: &mut Vec<DocSymbol>)
    requires
        b < tree@.len(),
    ensures
        final(out)@.map_values(|s: DocSymbol| symbol_view(s)) == old(out)@.map_values(
            |s: DocSymbol| symbol_view(s),
        ) + block_symbols(tree@, b as int),
{
    let ghost before = out@.map_values(|s: DocSymbol| symbol_view(s));
    if tree.is_token(b) {
        assert(out@.map_values(|s: DocSymbol| symbol_view(s)) =~= before + Seq::<SymbolView>::empty());
        return;
    }
    let k = tree.kind(b);
    if k == SyntaxKind::HEADING {
        let s = DocSymbol {
            name: heading_title_of(tree, b),
            detail: None,
            kind: DocSymbolKind::Namespace,
            start: tree.start(b),
            end: tree.end(b),
            level: Some(get_heading_level(tree, b)),
            parent: None,
        };
        out.push(s);
        assert(out@.map_values(|s: DocSymbol| symbol_view(s)) =~= before + block_symbols(
            tree@,
            b as int,
        ));
    } else if k == SyntaxKind::TABLE {
        let s = table_symbol_of(tree, b);
        out.push(s);
        assert(out@.map_values(|s: DocSymbol| symbol_view(s)) =~= before + block_symbols(
            tree@,
            b as int,
        ));
    } else if k == SyntaxKind::FIGURE || k == SyntaxKind::PARAGRAPH {
        let imgs = tree.children_of_kind(b, SyntaxKind::IMAGE_LINK, false);
        let ghost ks = children_of(tree@, b as int, SyntaxKind::IMAGE_LINK, false);
        proof {
            assert(imgs@.map_values(|j: usize| j as int).len() == imgs@.len());
        }
        let mut i: usize = 0;
        while i < imgs.len()
            invariant
                i <= imgs@.len(),
                imgs@.map_values(|j: usize| j as int) == ks,
                forall|a: int| 0 <= a < imgs@.len() ==> #[trigger] imgs@[a] < tree@.len(),
                out@.map_values(|s: DocSymbol| symbol_view(s)) == before + ks.take(i as int).map_values(
                    |j: int| image_symbol(tree@, j),
                ),
            decreases imgs.len() - i,
        {
            assert(ks[i as int] == imgs@[i as int] as int);
            let s = image_symbol_of(tree, imgs[i]);
            let ghost prev = out@.map_values(|s: DocSymbol| symbol_view(s));
            out.push(s);
            assert(out@.map_values(|s: DocSymbol| symbol_view(s)) =~= prev.push(symbol_view(s)));
            assert(ks.take(i + 1).map_values(|j: int| image_symbol(tree@, j)) =~= ks.take(
                i as int,
            ).map_values(|j: int| image_symbol(tree@, j)).push(image_symbol(tree@, ks[i as int])));
            i = i + 1;
        }
        assert(ks.take(i as int) =~= ks);
    } else {
        assert(out@.map_values(|s: DocSymbol| symbol_view(s)) =~= before + Seq::<SymbolView>::empty());
    }
}

/// The document outline (see [`outline_symbols`]), each symbol with the
/// heading holding it (see [`crate::outline::parent_spec`]).
/// `frontmatter` is the front-matter region's byte range, id and shape
/// summary (none when its YAML is invalid), when the document has front
/// matter.
pub fn document_symbols(tree: &SyntaxTree, frontmatter: Option<(usize, usize, &str, Option<&str>)>) -> (r: Vec<DocSymbol>)
    ensures
        r@.map_values(|s: DocSymbol| symbol_view(s)) == outline_symbols(
            tree@,
            match frontmatter {
                Some((s, e, id, summary)) => Some(
                    (
                        s as int,
                        e as int,
                        id@,
                        match summary {
                            Some(x) => Some(x@),
                            None => None,
                        },
                    ),
                ),
                None => None,
            },
        ),
        forall|i: int|
            0 <= i < r@.len() ==> match #[trigger] r@[i].parent {
                Some(p) => parent_spec(symbol_entries(r@.map_values(|s: DocSymbol| symbol_view(s))), i)
                    == Some(p as int),
                None => parent_spec(symbol_entries(r@.map_values(|s: DocSymbol| symbol_view(s))), i)
                    is None,
            },
{
    let _ = tree.len();
    let mut out: Vec<DocSymbol> = Vec::new();
    if tree.kind(0) != SyntaxKind::DOCUMENT {
        assert(out@.map_values(|s: DocSymbol| symbol_view(s)) =~= Seq::<SymbolView>::empty());
        return out;
    }
    match frontmatter {
        Some((s, e, id, summary)) => {
            let mut d = chars_of(id);
            let ghost idv = d@;
            let tail = match summary {
                Some(x) => x,
                None => "invalid YAML",
            };
            let parts = [" (", tail, ")"];
            let mut k: usize = 0;
            let ghost mut acc: Seq<char> = idv;
            while k < 3
                invariant
                    k <= 3,
                    parts@.len() == 3,
                    d@ == idv + if k == 0 {
                        Seq::<char>::empty()
                    } else if k == 1 {
                        parts@[0]@
                    } else if k == 2 {
                        parts@[0]@ + parts@[1]@
                    } else {
                        parts@[0]@ + parts@[1]@ + parts@[2]@
                    },
                decreases 3 - k,
            {
                let pc = chars_of(parts[k]);
                let ghost b0 = d@;
                let mut j: usize = 0;
                while j < pc.len()
                    invariant
                        j <= pc@.len(),
                        d@ == b0 + pc@.take(j as int),
                    decreases pc.len() - j,
                {
                    d.push(pc[j]);
                    j = j + 1;
                    assert(pc@.take(j as int) =~= pc@.take(j - 1).push(pc@[j - 1]));
                }
                assert(pc@.take(j as int) =~= pc@);
                k = k + 1;
            }
            assert(d@ =~= idv + " ("@ + tail@ + ")"@);
            out.push(
                DocSymbol {
                    name: string_from_chars(&chars_of("YAML Frontmatter")),
                    detail: Some(string_from_chars(&d)),
                    kind: DocSymbolKind::Namespace,
                    start: s,
                    end: e,
                    level: None,
                    parent: None,
                },
            );
        },
        None => {},
    }
    let ghost front = out@.map_values(|s: DocSymbol| symbol_view(s));
    let cs = child_list(tree, 0);
    let ghost sc = cs@.map_values(|x: usize| x as int);
    let mut j: usize = 0;
    while j < cs.len()
        invariant
            j <= cs@.len(),
            sc == cs@.map_values(|x: usize| x as int),
            forall|a: int| 0 <= a < cs@.len() ==> 0 < #[trigger] cs@[a] < tree@.len(),
            out@.map_values(|s: DocSymbol| symbol_view(s)) == front + blocks_symbols(tree@, sc, j as int),
        decreases cs.len() - j,
    {
        assert(sc[j as int] == cs@[j as int] as int);
        push_block_symbols(tree, cs[j], &mut out);
        assert(front + blocks_symbols(tree@, sc, j + 1) =~= front + blocks_symbols(tree@, sc, j as int)
            + block_symbols(tree@, sc[j as int]));
        j = j + 1;
    }
    let ghost views = out@.map_values(|s: DocSymbol| symbol_view(s));
    let mut entries: Vec<OutlineEntry> = Vec::new();
    let mut i: usize = 0;
    while i < out.len()
        invariant
            i <= out@.len(),
            views == out@.map_values(|s: DocSymbol| symbol_view(s)),
            entries@ == symbol_entries(views).take(i as int),
        decreases out.len() - i,
    {
        let e = match out[i].level {
            Some(l) => OutlineEntry::Heading(l),
            None => OutlineEntry::Item,
        };
        entries.push(e);
        assert(entries@ =~= symbol_entries(views).take(i + 1));
        i = i + 1;
    }
    assert(entries@ =~= symbol_entries(views));
    let parents = outline_parents(&entries);
    let mut result: Vec<DocSymbol> = Vec::new();
    let mut rest = out;
    let mut rev: Vec<DocSymbol> = Vec::new();
    let n = rest.len();
    while rest.len() > 0
        invariant
            rest@.len() + rev@.len() == n,
            n == views.len(),
            forall|k: int| 0 <= k < rest@.len() ==> symbol_view(#[trigger] rest@[k]) == views[k],
            forall|k: int| 0 <= k < rev@.len() ==> symbol_view(#[trigger] rev@[k]) == views[n - 1 - k],
        decreases rest.len(),
    {
        let s = rest.pop().unwrap();
        rev.push(s);
    }
    let mut q: usize = 0;
    while rev.len() > 0
        invariant
            q + rev@.len() == n,
            n == views.len(),
            parents@.len() == n,
            entries@ == symbol_entries(views),
            forall|k: int|
                0 <= k < n ==> match #[trigger] parents@[k] {
                    Some(p) => parent_spec(entries@, k) == Some(p as int),
                    None => parent_spec(entries@, k) is None,
                },
            forall|k: int| 0 <= k < rev@.len() ==> symbol_view(#[trigger] rev@[k]) == views[n - 1 - k],
            result@.len() == q,
            forall|k: int| 0 <= k < q ==> symbol_view(#[trigger] result@[k]) == views[k],
            forall|k: int| 0 <= k < q ==> #[trigger] result@[k].parent == parents@[k],
        decreases rev.len(),
    {
        let mut s = rev.pop().unwrap();
        s.parent = parents[q];
        result.push(s);
        q = q + 1;
    }
    assert(result@.map_values(|s: DocSymbol| symbol_view(s)) =~= views);
    result
}

} // verus!
