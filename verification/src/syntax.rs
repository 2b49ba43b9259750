//! A concrete syntax tree for Markdown documents.
//!
//! The tree is stored as a flat, pre-order arena of elements: index 0 is the
//! root node, every element records the index of its parent, and the
//! descendants of an element are exactly the elements between its index and
//! its `subtree_end`. Tokens carry text; nodes carry none, their text being
//! the concatenation of the token texts below them. Offsets are UTF-8 byte
//! offsets into the document. Trees are built with [`TreeBuilder`], which
//! mirrors the start-node / token / finish-node protocol of a green-tree
//! builder.

use vstd::prelude::*;
use crate::text::{str_byte_len, utf8_len};
use vstd::string::StringExecFns;

verus! {

/// The kinds of nodes and tokens of the syntax tree.
#[allow(non_camel_case_types)]
#[derive(Clone, Copy, Debug, PartialEq, Eq, Structural)]
pub enum SyntaxKind {
    ROOT,
    DOCUMENT,
    PARAGRAPH,
    PLAIN,
    BLANK_LINE,
    TEXT,
    WHITESPACE,
    NEWLINE,
    ESCAPED_CHAR,
    HEADING,
    ATX_HEADING_MARKER,
    SETEXT_HEADING_UNDERLINE,
    HEADING_CONTENT,
    ATTRIBUTE,
    LINK,
    LINK_START,
    LINK_TEXT,
    LINK_TEXT_END,
    LINK_DEST_START,
    LINK_DEST,
    LINK_DEST_END,
    LINK_REF,
    IMAGE_LINK,
    IMAGE_LINK_START,
    IMAGE_ALT,
    AUTO_LINK,
    UNRESOLVED_REFERENCE,
    REFERENCE_DEFINITION,
    DEFINITION_MARKER,
    FOOTNOTE_REFERENCE,
    FOOTNOTE_DEFINITION,
    FOOTNOTE_CONTENT,
    INLINE_FOOTNOTE,
    INLINE_FOOTNOTE_START,
    INLINE_FOOTNOTE_END,
    CITATION,
    CITATION_MARKER,
    CITATION_KEY,
    CITATION_BRACE_OPEN,
    CITATION_BRACE_CLOSE,
    CROSSREF,
    CROSSREF_MARKER,
    CROSSREF_KEY,
    CODE_BLOCK,
    CODE_FENCE_OPEN,
    CODE_FENCE_CLOSE,
    CODE_INFO,
    CODE_CONTENT,
    CHUNK_OPTIONS,
    CHUNK_OPTION,
    CHUNK_OPTION_PREFIX,
    CHUNK_OPTION_KEY,
    CHUNK_OPTION_VALUE,
    YAML_METADATA,
    YAML_METADATA_DELIM,
    YAML_METADATA_CONTENT,
    SHORTCODE,
    SHORTCODE_MARKER_OPEN,
    SHORTCODE_CONTENT,
    SHORTCODE_MARKER_CLOSE,
    FENCED_DIV,
    DIV_FENCE_OPEN,
    DIV_INFO,
    DIV_FENCE_CLOSE,
    INLINE_MATH,
    INLINE_MATH_MARKER,
    DISPLAY_MATH,
    DISPLAY_MATH_MARKER,
    MATH_CONTENT,
    BRACKETED_SPAN,
    SPAN_CONTENT,
    SPAN_ATTRIBUTES,
    EMPHASIS,
    STRONG,
    LIST,
    LIST_ITEM,
    LIST_MARKER,
    TABLE,
    TABLE_CAPTION,
    FIGURE,
    BLOCK_QUOTE,
    BLOCK_QUOTE_MARKER,
    DEFINITION_LIST,
    DEFINITION_ITEM,
    TERM,
    DEFINITION,
    EXAMPLE_LABEL,
    EXAMPLE_LABEL_KEY,
}

/// One element of the arena.
pub struct SyntaxElement {
    kind: SyntaxKind,
    is_token: bool,
    text: String,
    parent: usize,
    start: usize,
    end: usize,
    subtree_end: usize,
}

/// The mathematical view of one element.
pub struct ElementView {
    pub kind: SyntaxKind,
    pub is_token: bool,
    pub text: Seq<char>,
    pub parent: int,
    pub start: int,
    pub end: int,
    pub subtree_end: int,
}

impl SyntaxElement {
    pub closed spec fn view_elem(&self) -> ElementView {
        ElementView {
            kind: self.kind,
            is_token: self.is_token,
            text: self.text@,
            parent: self.parent as int,
            start: self.start as int,
            end: self.end as int,
            subtree_end: self.subtree_end as int,
        }
    }
}

/// Well-formedness of a pre-order element arena.
pub open spec fn wf(es: Seq<ElementView>) -> bool {
    &&& es.len() >= 1
    &&& es[0].parent == 0
    &&& !es[0].is_token
    &&& es[0].start == 0
    &&& forall|i: int|
        0 < i < es.len() ==> 0 <= #[trigger] es[i].parent < i && !es[es[i].parent].is_token
    &&& forall|i: int| 0 <= i < es.len() ==> i < #[trigger] es[i].subtree_end <= es.len()
    &&& forall|i: int| 0 <= i < es.len() ==> #[trigger] es[i].start <= es[i].end
    &&& forall|i: int|
        0 <= i < es.len() && #[trigger] es[i].is_token ==> {
            &&& es[i].subtree_end == i + 1
            &&& es[i].end - es[i].start == utf8_len(es[i].text)
        }
    &&& forall|i: int| 0 <= i < es.len() && !#[trigger] es[i].is_token ==> es[i].text.len() == 0
}

/// The concatenated texts of the tokens with index in `[lo, hi)`.
pub open spec fn text_between(es: Seq<ElementView>, lo: int, hi: int) -> Seq<char>
    decreases hi - lo,
{
    if hi <= lo {
        seq![]
    } else if es[hi - 1].is_token {
        text_between(es, lo, hi - 1) + es[hi - 1].text
    } else {
        text_between(es, lo, hi - 1)
    }
}

/// The text of element `n`: its own text for a token, the texts of the
/// tokens below it for a node.
pub open spec fn element_text(es: Seq<ElementView>, n: int) -> Seq<char> {
    text_between(es, n, es[n].subtree_end)
}

/// The concatenated texts of the direct token children of `n` that have
/// kind `k`, for children with index in `(n, hi)`.
pub open spec fn child_token_text(es: Seq<ElementView>, n: int, k: SyntaxKind, hi: int) -> Seq<
    char,
>
    decreases hi - n,
{
    if hi <= n + 1 {
        seq![]
    } else if es[hi - 1].is_token && es[hi - 1].parent == n && es[hi - 1].kind == k {
        child_token_text(es, n, k, hi - 1) + es[hi - 1].text
    } else {
        child_token_text(es, n, k, hi - 1)
    }
}

/// Indices of the direct children of `n` with index below `hi` that have
/// kind `k` and are tokens (`tokens`) or nodes (`!tokens`), ascending.
pub open spec fn kids(es: Seq<ElementView>, n: int, k: SyntaxKind, tokens: bool, hi: int) -> Seq<
    int,
>
    decreases hi - n,
{
    if hi <= n + 1 {
        seq![]
    } else if es[hi - 1].parent == n && es[hi - 1].kind == k && es[hi - 1].is_token == tokens {
        kids(es, n, k, tokens, hi - 1).push(hi - 1)
    } else {
        kids(es, n, k, tokens, hi - 1)
    }
}

/// Direct children of `n` with kind `k` (tokens or nodes), ascending.
pub open spec fn children_of(es: Seq<ElementView>, n: int, k: SyntaxKind, tokens: bool) -> Seq<int> {
    kids(es, n, k, tokens, es[n].subtree_end)
}

/// `kids` only yields direct children of `n` below `hi`, in ascending order.
pub proof fn lemma_kids(es: Seq<ElementView>, n: int, k: SyntaxKind, tokens: bool, hi: int)
    ensures
        forall|a: int|
            0 <= a < kids(es, n, k, tokens, hi).len() ==> {
                let j = #[trigger] kids(es, n, k, tokens, hi)[a];
                &&& n < j < hi
                &&& es[j].parent == n
                &&& es[j].kind == k
                &&& es[j].is_token == tokens
            },
        forall|a: int, b: int|
            0 <= a < b < kids(es, n, k, tokens, hi).len() ==> #[trigger] kids(
                es,
                n,
                k,
                tokens,
                hi,
            )[a] < #[trigger] kids(es, n, k, tokens, hi)[b],
    decreases hi - n,
{
    if hi > n + 1 {
        lemma_kids(es, n, k, tokens, hi - 1);
    }
}

/// The first direct child node (not token) of `n` with kind `k`.
pub open spec fn first_child_node(es: Seq<ElementView>, n: int, k: SyntaxKind) -> Option<int> {
    let ks = children_of(es, n, k, false);
    if ks.len() > 0 {
        Some(ks[0])
    } else {
        None
    }
}

/// The nearest of `n` and its ancestors whose kind is `k`.
pub open spec fn nearest_of_kind(es: Seq<ElementView>, n: int, k: SyntaxKind) -> Option<int>
    decreases n,
{
    if n < 0 || n >= es.len() {
        None
    } else if es[n].kind == k {
        Some(n)
    } else if n == 0 || es[n].parent >= n || es[n].parent < 0 {
        None
    } else {
        nearest_of_kind(es, es[n].parent, k)
    }
}

/// The right-biased token at `offset`: the first token whose range holds
/// `offset` (`start <= offset < end`), or, at the very end of the text, the
/// last token that ends there.
pub open spec fn token_at_offset(es: Seq<ElementView>, offset: int) -> Option<int> {
    if exists|t: int| 0 <= t < es.len() && es[t].is_token && es[t].start <= offset < es[t].end {
        Some(
            choose|t: int|
                0 <= t < es.len() && es[t].is_token && es[t].start <= offset < es[t].end
                    && forall|u: int|
                    0 <= u < t ==> !(es[u].is_token && es[u].start <= offset < es[u].end),
        )
    } else if offset == es[0].end && exists|t: int|
        0 <= t < es.len() && es[t].is_token && es[t].end == offset {
        Some(
            choose|t: int|
                0 <= t < es.len() && es[t].is_token && es[t].end == offset && forall|u: int|
                    t < u < es.len() ==> !(es[u].is_token && es[u].end == offset),
        )
    } else {
        None
    }
}

/// The kinds of the proper ancestors of `n`, from its parent up to the
/// root.
pub open spec fn ancestor_kinds(es: Seq<ElementView>, n: int) -> Seq<SyntaxKind>
    decreases n,
{
    if n <= 0 || n >= es.len() || es[n].parent >= n || es[n].parent < 0 {
        seq![]
    } else {
        seq![es[es[n].parent].kind] + ancestor_kinds(es, es[n].parent)
    }
}

/// A syntax tree: a well-formed pre-order arena of elements.
pub struct SyntaxTree {
    elements: Vec<SyntaxElement>,
}

impl View for SyntaxTree {
    type V = Seq<ElementView>;

    closed spec fn view(&self) -> Seq<ElementView> {
        self.elements@.map_values(|e: SyntaxElement| e.view_elem())
    }
}

impl SyntaxTree {
    #[verifier::type_invariant]
    spec fn inv(self) -> bool {
        wf(self@)
    }

    /// Number of elements (nodes and tokens) in the tree.
    pub fn len(&self) -> (n: usize)
        ensures
            n == self@.len(),
            wf(self@),
    {
        proof {
            use_type_invariant(self);
        }
        self.elements.len()
    }

    /// The kind of element `i`.
    pub fn kind(&self, i: usize) -> (k: SyntaxKind)
        requires
            i < self@.len(),
        ensures
            k == self@[i as int].kind,
            wf(self@),
    {
        proof {
            use_type_invariant(self);
        }
        self.elements[i].kind
    }

    /// Whether element `i` is a token.
    pub fn is_token(&self, i: usize) -> (b: bool)
        requires
            i < self@.len(),
        ensures
            b == self@[i as int].is_token,
            wf(self@),
    {
        proof {
            use_type_invariant(self);
        }
        self.elements[i].is_token
    }

    /// The text of token `i` (empty for a node).
    pub fn token_text(&self, i: usize) -> (t: &str)
        requires
            i < self@.len(),
        ensures
            t@ == self@[i as int].text,
            wf(self@),
    {
        proof {
            use_type_invariant(self);
        }
        self.elements[i].text.as_str()
    }

    /// The parent of element `i`; `None` for the root.
    pub fn parent(&self, i: usize) -> (p: Option<usize>)
        requires
            i < self@.len(),
        ensures
            i == 0 ==> p is None,
            i > 0 ==> p == Some(self@[i as int].parent as usize),
            wf(self@),
    {
        proof {
            use_type_invariant(self);
        }
        if i == 0 {
            None
        } else {
            Some(self.elements[i].parent)
        }
    }

    /// Start byte offset of element `i`.
    pub fn start(&self, i: usize) -> (s: usize)
        requires
            i < self@.len(),
        ensures
            s == self@[i as int].start,
            wf(self@),
    {
        proof {
            use_type_invariant(self);
        }
        self.elements[i].start
    }

    /// End byte offset of element `i`.
    pub fn end(&self, i: usize) -> (e: usize)
        requires
            i < self@.len(),
        ensures
            e == self@[i as int].end,
            wf(self@),
    {
        proof {
            use_type_invariant(self);
        }
        self.elements[i].end
    }

    /// The concatenated texts of the tokens with index in `[lo, hi)`.
    pub fn text_range_of(&self, lo: usize, hi: usize) -> (s: String)
        requires
            lo <= hi <= self@.len(),
        ensures
            s@ == text_between(self@, lo as int, hi as int),
            wf(self@),
    {
        proof {
            use_type_invariant(self);
        }
        let mut s = String::new();
        let mut j = lo;
        while j < hi
            invariant
                lo <= j <= hi <= self@.len(),
                s@ == text_between(self@, lo as int, j as int),
                wf(self@),
            decreases hi - j,
        {
            assert(self@[j as int] == self.elements@[j as int].view_elem());
            if self.elements[j].is_token {
                s.append(self.elements[j].text.as_str());
            }
            j = j + 1;
        }
        s
    }

    /// The text of element `n` (`SyntaxNode::text`).
    pub fn text(&self, n: usize) -> (s: String)
        requires
            n < self@.len(),
        ensures
            s@ == element_text(self@, n as int),
            wf(self@),
    {
        proof {
            use_type_invariant(self);
        }
        let hi = self.subtree_end(n);
        self.text_range_of(n, hi)
    }

    /// The concatenated texts of the direct token children of `n` with kind `k`.
    pub fn child_tokens_text(&self, n: usize, k: SyntaxKind) -> (s: String)
        requires
            n < self@.len(),
        ensures
            s@ == child_token_text(self@, n as int, k, self@[n as int].subtree_end),
            wf(self@),
    {
        proof {
            use_type_invariant(self);
        }
        let hi = self.subtree_end(n);
        let mut s = String::new();
        let mut j = n + 1;
        while j < hi
            invariant
                n < j <= hi <= self@.len(),
                hi == self@[n as int].subtree_end,
                s@ == child_token_text(self@, n as int, k, j as int),
                wf(self@),
            decreases hi - j,
        {
            let e = &self.elements[j];
            assert(self@[j as int] == e.view_elem());
            if e.is_token && e.parent == n && e.kind == k {
                s.append(e.text.as_str());
            }
            j = j + 1;
        }
        s
    }

    /// Indices of the direct children of `n` with kind `k` that are tokens
    /// (`tokens`) or nodes (`!tokens`), in document order.
    pub fn children_of_kind(&self, n: usize, k: SyntaxKind, tokens: bool) -> (v: Vec<usize>)
        requires
            n < self@.len(),
        ensures
            v@.map_values(|j: usize| j as int) == children_of(self@, n as int, k, tokens),
            forall|a: int| 0 <= a < v@.len() ==> #[trigger] v@[a] < self@.len(),
            wf(self@),
    {
        proof {
            use_type_invariant(self);
        }
        let hi = self.subtree_end(n);
        let mut v: Vec<usize> = Vec::new();
        let mut j = n + 1;
        while j < hi
            invariant
                n < j <= hi <= self@.len(),
                hi == self@[n as int].subtree_end,
                v@.map_values(|j: usize| j as int) == kids(self@, n as int, k, tokens, j as int),
                forall|a: int| 0 <= a < v@.len() ==> #[trigger] v@[a] < j,
                wf(self@),
            decreases hi - j,
        {
            let e = &self.elements[j];
            assert(self@[j as int] == e.view_elem());
            if e.parent == n && e.kind == k && e.is_token == tokens {
                v.push(j);
                assert(v@.map_values(|j: usize| j as int) =~= kids(
                    self@,
                    n as int,
                    k,
                    tokens,
                    j as int,
                ).push(j as int));
            }
            j = j + 1;
        }
        v
    }

    /// The nearest of `n` and its ancestors with kind `k`.
    pub fn nearest_ancestor_of_kind(&self, n: usize, k: SyntaxKind) -> (r: Option<usize>)
        requires
            n < self@.len(),
        ensures
            r matches Some(j) ==> nearest_of_kind(self@, n as int, k) == Some(j as int) && j
                < self@.len(),
            r is None ==> nearest_of_kind(self@, n as int, k) is None,
            wf(self@),
    {
        proof {
            use_type_invariant(self);
        }
        let mut cur = n;
        loop
            invariant
                cur < self@.len(),
                nearest_of_kind(self@, n as int, k) == nearest_of_kind(self@, cur as int, k),
                wf(self@),
            decreases cur,
        {
            let e = &self.elements[cur];
            assert(self@[cur as int] == e.view_elem());
            if e.kind == k {
                return Some(cur);
            }
            if cur == 0 {
                return None;
            }
            cur = e.parent;
        }
    }

    /// The first direct child node of `n` with kind `k`.
    pub fn first_child_node_of(&self, n: usize, k: SyntaxKind) -> (r: Option<usize>)
        requires
            n < self@.len(),
        ensures
            r matches Some(c) ==> first_child_node(self@, n as int, k) == Some(c as int),
            r matches Some(c) ==> n < c < self@[n as int].subtree_end && c < self@.len() && self@[c as int].kind == k
                && !self@[c as int].is_token && self@[c as int].parent == n,
            r is None ==> first_child_node(self@, n as int, k) is None,
            wf(self@),
    {
        let v = self.children_of_kind(n, k, false);
        proof {
            lemma_kids(self@, n as int, k, false, self@[n as int].subtree_end);
            assert(v@.len() == children_of(self@, n as int, k, false).len());
        }
        if v.len() > 0 {
            proof {
                assert(v@.map_values(|j: usize| j as int)[0] == v@[0] as int);
            }
            Some(v[0])
        } else {
            None
        }
    }

    /// The right-biased token at `offset` (see [`token_at_offset`]).
    #[verifier::rlimit(30)]
    pub fn token_at_offset(&self, offset: usize) -> (r: Option<usize>)
        ensures
            r matches Some(t) ==> token_at_offset(self@, offset as int) == Some(t as int) && t
                < self@.len() && self@[t as int].is_token,
            r is None ==> token_at_offset(self@, offset as int) is None,
            wf(self@),
    {
        proof {
            use_type_invariant(self);
        }
        let len = self.elements.len();
        let mut t: usize = 0;
        while t < len
            invariant
                t <= len == self@.len(),
                wf(self@),
                forall|u: int|
                    0 <= u < t ==> !(self@[u].is_token && self@[u].start <= offset < self@[u].end),
            decreases len - t,
        {
            let e = &self.elements[t];
            assert(self@[t as int] == e.view_elem());
            if e.is_token && e.start <= offset && offset < e.end {
                proof {
                    let w = choose|w: int|
                        0 <= w < self@.len() && self@[w].is_token && self@[w].start <= offset
                            < self@[w].end && forall|u: int|
                            0 <= u < w ==> !(self@[u].is_token && self@[u].start <= offset
                                < self@[u].end);
                    assert(w == t) by {
                        if w > t {
                            assert(self@[t as int].is_token && self@[t as int].start <= offset
                                < self@[t as int].end);
                        }
                    }
                }
                return Some(t);
            }
            t = t + 1;
        }
        assert(self@[0] == self.elements@[0].view_elem());
        if offset != self.elements[0].end {
            return None;
        }
        let mut k = len;
        while k > 0
            invariant
                k <= len == self@.len(),
                wf(self@),
                offset == self@[0].end,
                forall|u: int|
                    0 <= u < len ==> !(self@[u].is_token && self@[u].start <= offset
                        < self@[u].end),
                forall|u: int| k <= u < len ==> !(self@[u].is_token && self@[u].end == offset),
            decreases k,
        {
            let e = &self.elements[k - 1];
            assert(self@[k - 1] == e.view_elem());
            if e.is_token && e.end == offset {
                proof {
                    let w = choose|w: int|
                        0 <= w < self@.len() && self@[w].is_token && self@[w].end == offset
                            && forall|u: int|
                            w < u < self@.len() ==> !(self@[u].is_token && self@[u].end == offset);
                    assert(w == k - 1) by {
                        if w < k - 1 {
                            assert(self@[k - 1].is_token && self@[k - 1].end == offset);
                        }
                    }
                }
                return Some(k - 1);
            }
            k = k - 1;
        }
        None
    }

    /// The parent of token `t` (a node).
    pub fn parent_of_token(&self, t: usize) -> (p: usize)
        requires
            t < self@.len(),
            self@[t as int].is_token,
        ensures
            p == self@[t as int].parent,
            p < self@.len(),
            !self@[p as int].is_token,
            wf(self@),
    {
        proof {
            use_type_invariant(self);
            assert(t > 0);
            assert(0 <= self@[t as int].parent < t);
        }
        self.elements[t].parent
    }

    /// One past the index of the last descendant of element `i`.
    pub fn subtree_end(&self, i: usize) -> (e: usize)
        requires
            i < self@.len(),
        ensures
            e == self@[i as int].subtree_end,
            wf(self@),
    {
        proof {
            use_type_invariant(self);
        }
        self.elements[i].subtree_end
    }
}


/// Builds a [`SyntaxTree`] from a start-node / token / finish-node event
/// stream, the way a parser emits it.
pub struct TreeBuilder {
    elements: Vec<SyntaxElement>,
    stack: Vec<usize>,
    offset: usize,
}

/// The mathematical view of a builder: the elements so far, the indices
/// of the nodes still open (innermost last), and the current byte offset.
pub struct BuilderView {
    pub elements: Seq<ElementView>,
    pub open: Seq<int>,
    pub offset: int,
}

impl View for TreeBuilder {
    type V = BuilderView;

    closed spec fn view(&self) -> BuilderView {
        BuilderView {
            elements: self.elements@.map_values(|e: SyntaxElement| e.view_elem()),
            open: self.stack@.map_values(|i: usize| i as int),
            offset: self.offset as int,
        }
    }
}

/// Invariant of a builder's view.
pub open spec fn builder_inv(b: BuilderView) -> bool {
    let es = b.elements;
    let st = b.open;
    &&& forall|k: int| 0 <= k < st.len() ==> 0 <= #[trigger] st[k] < es.len() && !es[st[k]].is_token
    &&& forall|k1: int, k2: int| 0 <= k1 < k2 < st.len() ==> #[trigger] st[k1] < #[trigger] st[k2]
    &&& es.len() == 0 ==> st.len() == 0 && b.offset == 0
    &&& es.len() > 0 ==> es[0].parent == 0 && !es[0].is_token && es[0].start == 0
    &&& es.len() > 0 && st.len() > 0 ==> st[0] == 0
    &&& 0 <= b.offset
    &&& forall|i: int|
        0 < i < es.len() ==> 0 <= #[trigger] es[i].parent < i && !es[es[i].parent].is_token
    &&& forall|i: int|
        0 <= i < es.len() && !st.contains(i) ==> i < #[trigger] es[i].subtree_end <= es.len()
    &&& forall|i: int| 0 <= i < es.len() ==> #[trigger] es[i].start <= es[i].end
    &&& forall|i: int| 0 <= i < es.len() ==> #[trigger] es[i].start <= b.offset
    &&& forall|i: int|
        0 <= i < es.len() && #[trigger] es[i].is_token ==> {
            &&& es[i].subtree_end == i + 1
            &&& es[i].end - es[i].start == utf8_len(es[i].text)
        }
    &&& forall|i: int| 0 <= i < es.len() && !#[trigger] es[i].is_token ==> es[i].text.len() == 0
}

impl TreeBuilder {
    pub closed spec fn inv(&self) -> bool {
        builder_inv(self@)
    }

    /// An empty builder.
    pub fn new() -> (b: TreeBuilder)
        ensures
            b.inv(),
            b@.elements.len() == 0,
            b@.open.len() == 0,
            b@.offset == 0,
    {
        let b = TreeBuilder { elements: Vec::new(), stack: Vec::new(), offset: 0 };
        assert(b@.elements =~= Seq::<ElementView>::empty());
        assert(b@.open =~= Seq::<int>::empty());
        b
    }

    /// Open a node of kind `kind` as the last child of the innermost open
    /// node (or as the root, when nothing was built yet).
    pub fn start_node(&mut self, kind: SyntaxKind)
        requires
            old(self).inv(),
            old(self)@.elements.len() == 0 || old(self)@.open.len() > 0,
            old(self)@.elements.len() < usize::MAX,
        ensures
            final(self).inv(),
            final(self)@.elements == old(self)@.elements.push(
                ElementView {
                    kind,
                    is_token: false,
                    text: seq![],
                    parent: if old(self)@.open.len() == 0 {
                        0
                    } else {
                        old(self)@.open.last()
                    },
                    start: old(self)@.offset,
                    end: old(self)@.offset,
                    subtree_end: (old(self)@.elements.len() + 1) as int,
                },
            ),
            final(self)@.open == old(self)@.open.push(old(self)@.elements.len() as int),
            final(self)@.offset == old(self)@.offset,
    {
        let ghost old_v = self@;
        let idx = self.elements.len();
        let parent = if self.stack.len() == 0 {
            0
        } else {
            self.stack[self.stack.len() - 1]
        };
        let e = SyntaxElement {
            kind,
            is_token: false,
            text: String::new(),
            parent,
            start: self.offset,
            end: self.offset,
            subtree_end: idx + 1,
        };
        self.elements.push(e);
        self.stack.push(idx);
        proof {
            let v = self@;
            assert(v.elements =~= old_v.elements.push(e.view_elem()));
            assert(v.open =~= old_v.open.push(idx as int));
            assert forall|i: int|
                0 <= i < v.elements.len() && !v.open.contains(i) implies i
                < #[trigger] v.elements[i].subtree_end <= v.elements.len() by {
                if i < old_v.elements.len() {
                    if old_v.open.contains(i) {
                        let k = choose|k: int| 0 <= k < old_v.open.len() && old_v.open[k] == i;
                        assert(v.open[k] == i);
                    }
                } else {
                    assert(v.open[v.open.len() - 1] == i);
                }
            }
        }
    }

    /// Append a token of kind `kind` with text `text` to the innermost open
    /// node; the offset advances by the UTF-8 length of `text`.
    pub fn token(&mut self, kind: SyntaxKind, text: &str)
        requires
            old(self).inv(),
            old(self)@.open.len() > 0,
            old(self)@.elements.len() < usize::MAX,
            old(self)@.offset + utf8_len(text@) <= usize::MAX,
        ensures
            final(self).inv(),
            final(self)@.elements == old(self)@.elements.push(
                ElementView {
                    kind,
                    is_token: true,
                    text: text@,
                    parent: old(self)@.open.last(),
                    start: old(self)@.offset,
                    end: old(self)@.offset + utf8_len(text@),
                    subtree_end: (old(self)@.elements.len() + 1) as int,
                },
            ),
            final(self)@.open == old(self)@.open,
            final(self)@.offset == old(self)@.offset + utf8_len(text@),
    {
        let ghost old_v = self@;
        let idx = self.elements.len();
        let n = str_byte_len(text);
        let parent = self.stack[self.stack.len() - 1];
        let e = SyntaxElement {
            kind,
            is_token: true,
            text: text.to_owned(),
            parent,
            start: self.offset,
            end: self.offset + n,
            subtree_end: idx + 1,
        };
        self.elements.push(e);
        self.offset = self.offset + n;
        proof {
            let v = self@;
            assert(v.elements =~= old_v.elements.push(e.view_elem()));
            assert(v.open =~= old_v.open);
        }
    }

    /// Close the innermost open node: its range ends at the current offset
    /// and its subtree at the current element count.
    pub fn finish_node(&mut self)
        requires
            old(self).inv(),
            old(self)@.open.len() > 0,
        ensures
            final(self).inv(),
            final(self)@.elements == old(self)@.elements.update(
                old(self)@.open.last(),
                ElementView {
                    end: old(self)@.offset,
                    subtree_end: old(self)@.elements.len() as int,
                    ..old(self)@.elements[old(self)@.open.last()]
                },
            ),
            final(self)@.open == old(self)@.open.drop_last(),
            final(self)@.offset == old(self)@.offset,
    {
        let ghost old_v = self@;
        let i = self.stack.pop().unwrap();
        let len = self.elements.len();
        let offset = self.offset;
        let old_e = &self.elements[i];
        let e = SyntaxElement {
            kind: old_e.kind,
            is_token: old_e.is_token,
            text: old_e.text.clone(),
            parent: old_e.parent,
            start: old_e.start,
            end: offset,
            subtree_end: len,
        };
        self.elements.set(i, e);
        proof {
            let v = self@;
            assert(v.open =~= old_v.open.drop_last());
            assert(v.elements =~= old_v.elements.update(
                i as int,
                ElementView {
                    end: old_v.offset,
                    subtree_end: old_v.elements.len() as int,
                    ..old_v.elements[i as int]
                },
            ));
            assert forall|j: int|
                0 <= j < v.elements.len() && !v.open.contains(j) implies j
                < #[trigger] v.elements[j].subtree_end <= v.elements.len() by {
                if j != i {
                    if old_v.open.contains(j) {
                        let k = choose|k: int| 0 <= k < old_v.open.len() && old_v.open[k] == j;
                        if k < old_v.open.len() - 1 {
                            assert(v.open[k] == j);
                        }
                    }
                }
            }
        }
    }

    /// The finished tree.
    pub fn finish(self) -> (t: SyntaxTree)
        requires
            self.inv(),
            self@.elements.len() > 0,
            self@.open.len() == 0,
        ensures
            t@ == self@.elements,
    {
        let t = SyntaxTree { elements: self.elements };
        assert(t@ =~= self@.elements);
        t
    }
}

/// The kinds of the ancestors of element `node`, innermost first (the
/// element itself excluded).
pub fn ancestors(tree: &SyntaxTree, node: usize) -> (r: Vec<SyntaxKind>)
    requires
        node < tree@.len(),
    ensures
        r@ == ancestor_kinds(tree@, node as int),
{
    let mut out: Vec<SyntaxKind> = Vec::new();
    let mut cur = node;
    proof {
        use_type_invariant(tree);
        assert(out@ + ancestor_kinds(tree@, cur as int) =~= ancestor_kinds(tree@, node as int));
    }
    loop
        invariant
            cur < tree@.len(),
            wf(tree@),
            out@ + ancestor_kinds(tree@, cur as int) == ancestor_kinds(tree@, node as int),
        decreases cur,
    {
        match tree.parent(cur) {
            Some(p) => {
                proof {
                    assert(0 <= tree@[cur as int].parent < cur);
                }
                let ghost prev = out@;
                out.push(tree.kind(p));
                assert(out@ + ancestor_kinds(tree@, p as int) =~= prev + ancestor_kinds(tree@, cur as int));
                cur = p;
            },
            None => {
                assert(out@ + Seq::<SyntaxKind>::empty() =~= out@);
                return out;
            },
        }
    }
}

} // verus!
