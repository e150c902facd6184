//! Header information of C# source files, read from the tree-sitter C# syntax tree: the
//! declared namespace and the `using` directives.

use vstd::prelude::*;

use crate::search::{first_index, lemma_first_index, lemma_first_index_step};
use crate::text::{
    chars_contain, chars_of, chars_start_with, find_bytes, is_infix, lemma_infix_trans,
    occurs_at, owned, seq_has_char, seq_starts_with, str_eq, string_from_chars, sub_chars, trim,
    trim_chars, trim_end_char, trim_end_matching, utf8_text, lemma_trim_infix,
    lemma_trim_end_char_infix,
};
use vstd::string::StringSliceAdditionalSpecFns;
use vstd::utf8::{decode_utf8, encode_utf8, valid_utf8};

verus! {

/// A `using` directive: the imported namespace and its byte range in the file.
#[derive(Debug)]
pub struct UsingDirective {
    pub namespace: String,
    pub start_byte: usize,
    pub end_byte: usize,
}

/// The header of a `.cs` file.
#[derive(Debug)]
pub struct CsHeader {
    pub path: String,
    /// The declared namespace (block or file-scoped), if any.
    pub namespace: Option<String>,
    /// Plain `using` directives; aliases and `using static` are left out.
    pub usings: Vec<UsingDirective>,
}

/// Each directive's range starts no later than it ends.
pub open spec fn ranges_ordered(h: CsHeader) -> bool {
    forall|j: int|
        0 <= j < h.usings@.len() ==> (#[trigger] h.usings@[j]).start_byte <= h.usings@[j].end_byte
}

/// The imported namespace of a `using` directive's text: the text after `using`, trimmed,
/// without trailing `;`s; none for `using static`, an alias (`=`), or an empty name.
pub open spec fn using_name(raw: Seq<char>) -> Option<Seq<char>> {
    let t = trim(raw);
    if !seq_starts_with(t, "using"@) {
        None
    } else {
        let inner = trim(t.subrange("using"@.len() as int, t.len() as int));
        if seq_starts_with(inner, "static "@) || seq_has_char(inner, '=') {
            None
        } else {
            let name = trim(trim_end_char(inner, ';'));
            if name.len() == 0 {
                None
            } else {
                Some(name)
            }
        }
    }
}

/// The namespace of a `using` directive's text.
pub fn using_name_of(raw: &str) -> (r: Option<String>)
    ensures
        r is Some <==> using_name(raw@) is Some,
        r matches Some(s) ==> s@ == using_name(raw@)->0 && is_infix(s@, raw@),
{
    let v = chars_of(raw);
    let t = trim_chars(v.as_slice());
    if !chars_start_with(t.as_slice(), "using") {
        return None;
    }
    let n = chars_of("using").len();
    let rest = sub_chars(t.as_slice(), n, t.len());
    let inner = trim_chars(rest.as_slice());
    if chars_start_with(inner.as_slice(), "static ") || chars_contain(inner.as_slice(), '=') {
        return None;
    }
    let stripped = trim_end_matching(inner.as_slice(), ';');
    let name = trim_chars(stripped.as_slice());
    if name.len() == 0 {
        return None;
    }
    proof {
        assert(is_infix(rest@, t@));
        lemma_infix_trans(rest@, t@, v@);
        lemma_infix_trans(inner@, rest@, v@);
        lemma_infix_trans(stripped@, inner@, v@);
        lemma_infix_trans(name@, stripped@, v@);
    }
    Some(string_from_chars(name.as_slice()))
}

/// Encoding a concatenation concatenates the encodings.
pub proof fn lemma_encode_concat(a: Seq<char>, b: Seq<char>)
    ensures
        encode_utf8(a + b) == encode_utf8(a) + encode_utf8(b),
    decreases a.len(),
{
    if a.len() == 0 {
        assert(a + b =~= b);
        assert(encode_utf8(a) =~= Seq::<u8>::empty());
        assert(encode_utf8(a) + encode_utf8(b) =~= encode_utf8(b));
    } else {
        lemma_encode_concat(a.drop_first(), b);
        assert((a + b).drop_first() =~= a.drop_first() + b);
        assert((a + b)[0] == a[0]);
    }
}

/// The encoding of a contiguous part of `s` occurs in the encoding of `s`.
pub proof fn lemma_infix_encoded(a: Seq<char>, s: Seq<char>)
    requires
        is_infix(a, s),
    ensures
        exists|p: int| occurs_at(encode_utf8(s), encode_utf8(a), p),
{
    let (i, j) = choose|i: int, j: int| 0 <= i <= j <= s.len() && a == s.subrange(i, j);
    let x = s.subrange(0, i);
    let y = s.subrange(j, s.len() as int);
    assert(s =~= x + a + y);
    lemma_encode_concat(x + a, y);
    lemma_encode_concat(x, a);
    let p = encode_utf8(x).len() as int;
    assert(encode_utf8(s).subrange(p, p + encode_utf8(a).len()) =~= encode_utf8(a));
    assert(occurs_at(encode_utf8(s), encode_utf8(a), p));
}

/// The first position of `needle` in `hay`, or 0 when it does not occur.
pub open spec fn first_occurrence(hay: Seq<u8>, needle: Seq<u8>) -> int {
    match first_index((hay.len() + 1) as nat, |p: int| occurs_at(hay, needle, p)) {
        Some(p) => p,
        None => 0,
    }
}

/// The directive of a `using_directive` node whose text is `raw`, whose bytes are
/// `node_src`, and which starts at byte `start`: the namespace and the byte range of its
/// first occurrence in the node.
pub open spec fn directive_of(raw: Seq<char>, node_src: Seq<u8>, start: int) -> Option<
    (Seq<char>, int, int),
> {
    match using_name(raw) {
        None => None,
        Some(name) => {
            let off = first_occurrence(node_src, encode_utf8(name));
            Some((name, start + off, start + off + encode_utf8(name).len()))
        },
    }
}

/// The value of a directive.
pub open spec fn directive_view(u: UsingDirective) -> (Seq<char>, int, int) {
    (u.namespace@, u.start_byte as int, u.end_byte as int)
}

/// The directive of a `using_directive` node with text `raw` (the decoding of `node_src`,
/// the node's bytes), the node starting at byte `start` of its file.
pub fn extract_using_directive(raw: &str, node_src: &[u8], start: usize) -> (r: Option<
    UsingDirective,
>)
    requires
        valid_utf8(node_src@),
        raw@ == decode_utf8(node_src@),
        start + node_src@.len() <= usize::MAX,
    ensures
        match directive_of(raw@, node_src@, start as int) {
            None => r is None,
            Some(d) => r matches Some(u) && directive_view(u) == d,
        },
{
    let name = match using_name_of(raw) {
        Some(n) => n,
        None => {
            return None;
        },
    };
    let name_bytes = name.as_str().as_bytes();
    proof {
        vstd::utf8::decode_utf8_encode_utf8(node_src@);
        lemma_infix_encoded(name@, raw@);
        let p = choose|p: int| occurs_at(encode_utf8(raw@), encode_utf8(name@), p);
        assert(0 <= p <= node_src@.len());
        lemma_first_index((node_src@.len() + 1) as nat, |p: int| occurs_at(node_src@, name_bytes@, p));
    }
    let found = find_bytes(node_src, name_bytes);
    let offset = match found {
        Some(p) => p,
        None => 0,
    };
    proof {
        let f = |p: int| occurs_at(node_src@, name_bytes@, p);
        lemma_first_index((node_src@.len() + 1) as nat, f);
        match found {
            Some(p) => {
                assert(f(p as int));
                assert(first_index((node_src@.len() + 1) as nat, f) == Some(p as int));
            },
            None => {
                let q = choose|q: int| occurs_at(encode_utf8(raw@), encode_utf8(name@), q);
                assert(false);
            },
        }
        assert(offset + name_bytes@.len() <= node_src@.len());
    }
    let len = name_bytes.len();
    Some(UsingDirective { namespace: name, start_byte: start + offset, end_byte: start + offset + len })
}


#[verifier::external_type_specification]
#[verifier::external_body]
pub struct ExTsParser(tree_sitter::Parser);

#[verifier::external_type_specification]
#[verifier::external_body]
pub struct ExTsTree(tree_sitter::Tree);

#[verifier::external_type_specification]
#[verifier::external_body]
pub struct ExTsNode<'t>(tree_sitter::Node<'t>);

/// The number of children of the node at child-index path `path` in the C# tree of `source`.
pub uninterp spec fn ts_child_count(source: Seq<u8>, path: Seq<int>) -> nat;

/// The kind of the node at `path` in the C# tree of `source`.
pub uninterp spec fn ts_kind(source: Seq<u8>, path: Seq<int>) -> Seq<char>;

/// The (start, end) byte range of the node at `path` in the C# tree of `source`.
pub uninterp spec fn ts_span(source: Seq<u8>, path: Seq<int>) -> (int, int);

/// A parsed C# tree with the source it was parsed from.
pub struct CsTree {
    tree: tree_sitter::Tree,
    pub source: Ghost<Seq<u8>>,
}

/// A node of a C# tree, with its source and its child-index path from the root.
pub struct CsNode<'t> {
    node: tree_sitter::Node<'t>,
    pub source: Ghost<Seq<u8>>,
    pub path: Ghost<Seq<int>>,
}

/// A tree-sitter parser with the C# grammar of `tree_sitter_c_sharp` set as its language,
/// no timeout and no cancellation flag; only `cs_parser` makes one.
pub struct CsParser {
    parser: tree_sitter::Parser,
}

/// Calls `tree_sitter::Parser::new` and `set_language` with the C# grammar of
/// `tree_sitter_c_sharp`; a language error becomes its message. Claimed: the grammar is
/// accepted. `set_language` accepts ABI versions 13 to 15 in this version of `tree-sitter`,
/// and the grammar's `parser.c` declares version 15.
#[verifier::external_body]
fn cs_parser() -> (r: Result<CsParser, String>)
    ensures
        r is Ok,
{
    let mut parser = tree_sitter::Parser::new();
    parser.set_language(&tree_sitter_c_sharp::LANGUAGE.into()).map_err(|e| e.to_string())?;
    Ok(CsParser { parser })
}

/// Calls `Parser::parse(source, None)`. Claimed: a tree of `source`. `parse` gives none
/// only to a parser without a language, or after a timeout or a cancellation, and a
/// `CsParser` has its language set and neither of the others.
#[verifier::external_body]
fn cs_parse(parser: &mut CsParser, source: &[u8]) -> (r: Option<CsTree>)
    ensures
        r is Some,
        r.unwrap().source@ == source@,
{
    parser.parser.parse(source, None).map(|tree| CsTree { tree, source: Ghost(Seq::empty()) })
}

/// Calls `Tree::root_node`. Claimed: the node at the empty path.
#[verifier::external_body]
fn cs_root<'t>(t: &'t CsTree) -> (r: CsNode<'t>)
    ensures
        r.source == t.source,
        r.path@ == Seq::<int>::empty(),
{
    CsNode { node: t.tree.root_node(), source: Ghost(Seq::empty()), path: Ghost(Seq::empty()) }
}

/// Calls `Node::child_count`. Claimed: `ts_child_count` of the node.
#[verifier::external_body]
fn cs_child_count(n: &CsNode) -> (r: usize)
    ensures
        r == ts_child_count(n.source@, n.path@),
{
    n.node.child_count()
}

/// Calls `Node::child(i)`, which is `Some` for an index below the child count. Claimed: the
/// child at path `path + [i]`.
#[verifier::external_body]
fn cs_child<'t>(n: &CsNode<'t>, i: usize) -> (r: CsNode<'t>)
    requires
        i < ts_child_count(n.source@, n.path@),
    ensures
        r.source == n.source,
        r.path@ == n.path@.push(i as int),
{
    CsNode { node: n.node.child(i).unwrap(), source: Ghost(Seq::empty()), path: Ghost(Seq::empty()) }
}

/// Calls `Node::kind`. Claimed: `ts_kind` of the node.
#[verifier::external_body]
fn cs_kind(n: &CsNode) -> (r: &'static str)
    ensures
        r@ == ts_kind(n.source@, n.path@),
{
    n.node.kind()
}

/// Calls `Node::start_byte` and `Node::end_byte`. Claimed: `ts_span` of the node.
#[verifier::external_body]
fn cs_span(n: &CsNode) -> (r: (usize, usize))
    ensures
        (r.0 as int, r.1 as int) == ts_span(n.source@, n.path@),
{
    (n.node.start_byte(), n.node.end_byte())
}

/// The UTF-8 text of the node at `path`, when its range lies in the source and is valid UTF-8
/// (as `Node::utf8_text`).
pub open spec fn node_text(source: Seq<u8>, path: Seq<int>) -> Option<Seq<char>> {
    span_text(source, ts_span(source, path).0, ts_span(source, path).1)
}

/// The text of bytes `s..e` of `source`, when they lie in it and are valid UTF-8.
pub open spec fn span_text(source: Seq<u8>, s: int, e: int) -> Option<Seq<char>> {
    if 0 <= s <= e <= source.len() && valid_utf8(source.subrange(s, e)) {
        Some(decode_utf8(source.subrange(s, e)))
    } else {
        None
    }
}

/// The text of `n`.
fn node_text_of(n: &CsNode, source: &[u8]) -> (r: Option<String>)
    requires
        n.source@ == source@,
    ensures
        opt_text(r) == node_text(source@, n.path@),
{
    let (s, e) = cs_span(n);
    if s <= e && e <= source.len() {
        utf8_text(&source[s..e])
    } else {
        None
    }
}

/// The value of an optional string.
pub open spec fn opt_text(o: Option<String>) -> Option<Seq<char>> {
    match o {
        Some(s) => Some(s@),
        None => None,
    }
}

/// Child `k` of the node at `path` names the namespace.
pub open spec fn names_namespace(source: Seq<u8>, path: Seq<int>) -> spec_fn(int) -> bool {
    |k: int|
        ts_kind(source, path.push(k)) == "identifier"@ || ts_kind(source, path.push(k))
            == "qualified_name"@
}

/// The declared name of the namespace node at `path`: the text of its first identifier or
/// qualified-name child.
pub open spec fn namespace_name(source: Seq<u8>, path: Seq<int>) -> Option<Seq<char>> {
    match first_index(ts_child_count(source, path), names_namespace(source, path)) {
        Some(k) => node_text(source, path.push(k)),
        None => None,
    }
}

/// The name declared by a namespace node.
fn extract_namespace_name(n: &CsNode, source: &[u8]) -> (r: Option<String>)
    requires
        n.source@ == source@,
    ensures
        opt_text(r) == namespace_name(source@, n.path@),
{
    let count = cs_child_count(n);
    let ghost p = names_namespace(source@, n.path@);
    let mut k: usize = 0;
    while k < count
        invariant
            n.source@ == source@,
            count == ts_child_count(source@, n.path@),
            k <= count,
            p == names_namespace(source@, n.path@),
            first_index(k as nat, p) is None,
        decreases count - k,
    {
        let child = cs_child(n, k);
        let kind = cs_kind(&child);
        let hit = str_eq(kind, "identifier") || str_eq(kind, "qualified_name");
        proof {
            assert(p(k as int) == hit);
            lemma_first_index_step(k as nat, p);
            lemma_first_index(k as nat, p);
            lemma_first_index(count as nat, p);
        }
        if hit {
            return node_text_of(&child, source);
        }
        k = k + 1;
    }
    None
}

/// A top-level node of kind `kind` declares the file's namespace.
pub open spec fn is_namespace_kind(kind: Seq<char>) -> bool {
    kind == "namespace_declaration"@ || kind == "file_scoped_namespace_declaration"@
}

/// Top-level child `k` declares the namespace.
pub open spec fn declares_namespace(source: Seq<u8>) -> spec_fn(int) -> bool {
    |k: int| is_namespace_kind(ts_kind(source, seq![k]))
}

/// The index of the first top-level namespace declaration, if any.
pub open spec fn namespace_child(source: Seq<u8>) -> Option<int> {
    first_index(ts_child_count(source, seq![]), declares_namespace(source))
}

/// The directive of top-level child `k`, when it is a `using_directive` with a plain
/// namespace.
pub open spec fn child_directive(source: Seq<u8>, k: int) -> Seq<(Seq<char>, int, int)> {
    if ts_kind(source, seq![k]) == "using_directive"@ {
        match node_text(source, seq![k]) {
            Some(raw) => {
                let (s, e) = ts_span(source, seq![k]);
                match directive_of(raw, source.subrange(s, e), s) {
                    Some(d) => seq![d],
                    None => seq![],
                }
            },
            None => seq![],
        }
    } else {
        seq![]
    }
}

/// The directives of the first `n` top-level children.
pub open spec fn child_directives(source: Seq<u8>, n: nat) -> Seq<(Seq<char>, int, int)>
    decreases n,
{
    if n == 0 {
        seq![]
    } else {
        child_directives(source, (n - 1) as nat) + child_directive(source, n - 1)
    }
}

/// The header read from `source`: the directives before the first namespace declaration,
/// and that declaration's name.
pub open spec fn header_of(source: Seq<u8>) -> (Option<Seq<char>>, Seq<(Seq<char>, int, int)>) {
    match namespace_child(source) {
        Some(k) => (namespace_name(source, seq![k]), child_directives(source, k as nat)),
        None => (None, child_directives(source, ts_child_count(source, seq![]))),
    }
}

/// The values of a file's directives.
pub open spec fn directive_views(us: Seq<UsingDirective>) -> Seq<(Seq<char>, int, int)> {
    us.map_values(|u: UsingDirective| directive_view(u))
}

/// A top-level node of a parsed C# file: its kind, its byte range, and, for a namespace
/// declaration, the name it declares.
#[derive(Debug)]
pub struct TopNode {
    pub kind: String,
    pub start_byte: usize,
    pub end_byte: usize,
    pub declared: Option<String>,
}

/// The directive that top-level node `n` gives: a `using_directive` whose bytes are text
/// and name a plain namespace.
pub open spec fn node_directive(source: Seq<u8>, n: TopNode) -> Seq<(Seq<char>, int, int)> {
    if n.kind@ == "using_directive"@ {
        match span_text(source, n.start_byte as int, n.end_byte as int) {
            Some(raw) => match directive_of(
                raw,
                source.subrange(n.start_byte as int, n.end_byte as int),
                n.start_byte as int,
            ) {
                Some(d) => seq![d],
                None => seq![],
            },
            None => seq![],
        }
    } else {
        seq![]
    }
}

/// The directives of the first `k` nodes.
pub open spec fn node_directives(source: Seq<u8>, nodes: Seq<TopNode>, k: nat) -> Seq<
    (Seq<char>, int, int),
>
    decreases k,
{
    if k == 0 {
        seq![]
    } else {
        node_directives(source, nodes, (k - 1) as nat) + node_directive(source, nodes[k - 1])
    }
}

/// Node `k` declares the namespace.
pub open spec fn is_namespace_node(nodes: Seq<TopNode>) -> spec_fn(int) -> bool {
    |k: int| is_namespace_kind(nodes[k].kind@)
}

/// The header that the top-level nodes give: the directives before the first namespace
/// declaration, and the name it declares.
pub open spec fn nodes_header(source: Seq<u8>, nodes: Seq<TopNode>) -> (
    Option<Seq<char>>,
    Seq<(Seq<char>, int, int)>,
) {
    match first_index(nodes.len(), is_namespace_node(nodes)) {
        Some(k) => (opt_text(nodes[k].declared), node_directives(source, nodes, k as nat)),
        None => (None, node_directives(source, nodes, nodes.len())),
    }
}

/// The header of the C# file at `path` with text `source` from its top-level nodes: the
/// plain `using` directives up to the first namespace declaration, and the name that
/// declaration declares.
pub fn header_from_nodes(path: &str, source: &[u8], nodes: &[TopNode]) -> (r: CsHeader)
    ensures
        r.path@ == path@,
        opt_text(r.namespace) == nodes_header(source@, nodes@).0,
        directive_views(r.usings@) == nodes_header(source@, nodes@).1,
{
    let ghost p = is_namespace_node(nodes@);
    let mut usings: Vec<UsingDirective> = Vec::new();
    let mut namespace: Option<String> = None;
    let mut k: usize = 0;
    let mut stopped = false;
    while k < nodes.len() && !stopped
        invariant
            k <= nodes@.len(),
            p == is_namespace_node(nodes@),
            !stopped ==> first_index(k as nat, p) is None && namespace is None
                && directive_views(usings@) == node_directives(source@, nodes@, k as nat),
            stopped ==> k >= 1 && first_index(nodes@.len(), p) == Some(k - 1) && opt_text(
                namespace,
            ) == opt_text(nodes@[k - 1].declared) && directive_views(usings@) == node_directives(
                source@,
                nodes@,
                (k - 1) as nat,
            ),
        decreases nodes@.len() - k,
    {
        let node = &nodes[k];
        let kind = node.kind.as_str();
        let is_ns = str_eq(kind, "namespace_declaration") || str_eq(
            kind,
            "file_scoped_namespace_declaration",
        );
        proof {
            assert(p(k as int) == is_ns);
            lemma_first_index_step(k as nat, p);
            if is_ns {
                lemma_first_index_grown(k as nat + 1, nodes@.len() as nat, p);
            }
        }
        if is_ns {
            namespace = match &node.declared {
                Some(d) => Some(d.clone()),
                None => None,
            };
            stopped = true;
        } else {
            let ghost before = usings@;
            if str_eq(kind, "using_directive") {
                let s = node.start_byte;
                let e = node.end_byte;
                if s <= e && e <= source.len() {
                    if let Some(raw) = utf8_text(&source[s..e]) {
                        if let Some(ud) = extract_using_directive(raw.as_str(), &source[s..e], s) {
                            usings.push(ud);
                        }
                    }
                }
            }
            proof {
                assert(directive_views(usings@) =~= directive_views(before) + node_directive(
                    source@,
                    nodes@[k as int],
                ));
            }
        }
        k = k + 1;
    }
    proof {
        if !stopped {
            lemma_first_index(nodes@.len() as nat, p);
        }
    }
    CsHeader { path: owned(path), namespace, usings }
}

/// Once `first_index` has found an index, looking further finds the same one.
proof fn lemma_first_index_grown(a: nat, b: nat, p: spec_fn(int) -> bool)
    requires
        a <= b,
        first_index(a, p) is Some,
    ensures
        first_index(b, p) == first_index(a, p),
    decreases b,
{
    if b > a {
        lemma_first_index_grown(a, (b - 1) as nat, p);
    }
}

/// Reads the header of the C# file at `path` with text `source`: the `using` directives
/// among the top-level nodes up to the first namespace declaration, and that declaration's
/// name. The C# parser is always set up and always yields a tree, so the read succeeds; the
/// error arms name a language error, or a parse that yielded no tree, with the path.
pub fn scan_source(path: &str, source: &[u8]) -> (r: Result<CsHeader, String>)
    ensures
        r matches Ok(h) && h.path@ == path@ && opt_text(h.namespace) == header_of(source@).0
            && directive_views(h.usings@) == header_of(source@).1,
        r matches Ok(h) ==> ranges_ordered(h) && forall|j: int|
            0 <= j < h.usings@.len() ==> directive_in_source(
                source@,
                directive_view(#[trigger] h.usings@[j]),
            ),
{
    let mut parser = match cs_parser() {
        Ok(p) => p,
        Err(m) => {
            let mut msg = owned("tree-sitter language error: ");
            crate::text::append_str(&mut msg, m.as_str());
            return Err(msg);
        },
    };
    let tree = match cs_parse(&mut parser, source) {
        Some(t) => t,
        None => {
            let mut msg = owned("tree-sitter failed to parse ");
            crate::text::append_str(&mut msg, path);
            return Err(msg);
        },
    };
    let root = cs_root(&tree);
    let count = cs_child_count(&root);
    let mut nodes: Vec<TopNode> = Vec::new();
    let mut k: usize = 0;
    while k < count
        invariant
            root.source@ == source@,
            root.path@ == Seq::<int>::empty(),
            count == ts_child_count(source@, seq![]),
            k <= count,
            nodes@.len() == k,
            forall|j: int| 0 <= j < k ==> #[trigger] node_matches(source@, nodes@[j], j),
        decreases count - k,
    {
        let child = cs_child(&root, k);
        proof {
            assert(child.path@ =~= seq![k as int]);
        }
        let kind = cs_kind(&child);
        let (s, e) = cs_span(&child);
        let is_ns = str_eq(kind, "namespace_declaration") || str_eq(
            kind,
            "file_scoped_namespace_declaration",
        );
        let declared = if is_ns {
            extract_namespace_name(&child, source)
        } else {
            None
        };
        let node = TopNode { kind: owned(kind), start_byte: s, end_byte: e, declared };
        let ghost prev = nodes@;
        nodes.push(node);
        proof {
            assert forall|j: int| 0 <= j < k + 1 implies #[trigger] node_matches(
                source@,
                nodes@[j],
                j,
            ) by {
                if j < k {
                    assert(nodes@[j] == prev[j]);
                }
            }
        }
        k = k + 1;
    }
    let h = header_from_nodes(path, source, nodes.as_slice());
    proof {
        lemma_nodes_header(source@, nodes@);
        law_header_ranges(source@);
        assert forall|j: int| 0 <= j < h.usings@.len() implies directive_in_source(
            source@,
            directive_view(#[trigger] h.usings@[j]),
        ) by {
            assert(directive_views(h.usings@)[j] == directive_view(h.usings@[j]));
        }
    }
    Ok(h)
}

/// Node `n` is top-level child `j` of the tree of `source`: its kind, its byte range, and,
/// for a namespace declaration, the name it declares.
pub open spec fn node_matches(source: Seq<u8>, n: TopNode, j: int) -> bool {
    &&& n.kind@ == ts_kind(source, seq![j])
    &&& (n.start_byte as int, n.end_byte as int) == ts_span(source, seq![j])
    &&& is_namespace_kind(n.kind@) ==> opt_text(n.declared) == namespace_name(source, seq![j])
}

proof fn lemma_first_index_same(n: nat, p: spec_fn(int) -> bool, q: spec_fn(int) -> bool)
    requires
        forall|j: int| 0 <= j < n ==> #[trigger] p(j) == q(j),
    ensures
        first_index(n, p) == first_index(n, q),
    decreases n,
{
    if n > 0 {
        lemma_first_index_same((n - 1) as nat, p, q);
        assert(p(n - 1) == q(n - 1));
    }
}

proof fn lemma_node_directives(source: Seq<u8>, nodes: Seq<TopNode>, m: nat)
    requires
        m <= nodes.len(),
        forall|j: int| 0 <= j < nodes.len() ==> #[trigger] node_matches(source, nodes[j], j),
    ensures
        node_directives(source, nodes, m) == child_directives(source, m),
    decreases m,
{
    if m > 0 {
        lemma_node_directives(source, nodes, (m - 1) as nat);
        assert(node_matches(source, nodes[m - 1], m - 1));
        assert(node_directive(source, nodes[m - 1]) == child_directive(source, m - 1));
    }
}

/// The nodes of the whole top level, read in order, give the header of the file.
proof fn lemma_nodes_header(source: Seq<u8>, nodes: Seq<TopNode>)
    requires
        nodes.len() == ts_child_count(source, seq![]),
        forall|j: int| 0 <= j < nodes.len() ==> #[trigger] node_matches(source, nodes[j], j),
    ensures
        nodes_header(source, nodes) == header_of(source),
{
    let p = is_namespace_node(nodes);
    let q = declares_namespace(source);
    assert forall|j: int| 0 <= j < nodes.len() implies #[trigger] p(j) == q(j) by {
        assert(node_matches(source, nodes[j], j));
    }
    lemma_first_index_same(nodes.len(), p, q);
    lemma_first_index(nodes.len(), p);
    match first_index(nodes.len(), p) {
        Some(k) => {
            assert(node_matches(source, nodes[k], k));
            lemma_node_directives(source, nodes, k as nat);
        },
        None => {
            lemma_node_directives(source, nodes, nodes.len());
        },
    }
}

/// The namespace that `using_name` finds is a contiguous part of the directive's text.
proof fn lemma_using_name_infix(raw: Seq<char>)
    requires
        using_name(raw) is Some,
    ensures
        is_infix(using_name(raw)->0, raw),
{
    let t = trim(raw);
    let rest = t.subrange("using"@.len() as int, t.len() as int);
    let inner = trim(rest);
    let stripped = trim_end_char(inner, ';');
    let name = trim(stripped);
    lemma_trim_infix(raw);
    assert(is_infix(rest, t));
    lemma_infix_trans(rest, t, raw);
    lemma_trim_infix(rest);
    lemma_infix_trans(inner, rest, raw);
    lemma_trim_end_char_infix(inner, ';');
    lemma_infix_trans(stripped, inner, raw);
    lemma_trim_infix(stripped);
    lemma_infix_trans(name, stripped, raw);
}

/// The range that `directive_of` records holds, within the node's bytes, the encoding of
/// the namespace it names.
proof fn lemma_directive_bytes(raw: Seq<char>, node_src: Seq<u8>, start: int)
    requires
        valid_utf8(node_src),
        raw == decode_utf8(node_src),
        directive_of(raw, node_src, start) is Some,
    ensures
        ({
            let d = directive_of(raw, node_src, start)->0;
            &&& start <= d.1 <= d.2 <= start + node_src.len()
            &&& node_src.subrange(d.1 - start, d.2 - start) == encode_utf8(d.0)
        }),
{
    let name = using_name(raw)->0;
    let needle = encode_utf8(name);
    lemma_using_name_infix(raw);
    lemma_infix_encoded(name, raw);
    vstd::utf8::decode_utf8_encode_utf8(node_src);
    let p = choose|p: int| occurs_at(encode_utf8(raw), needle, p);
    let f = |q: int| occurs_at(node_src, needle, q);
    assert(f(p));
    lemma_first_index((node_src.len() + 1) as nat, f);
    let off = first_occurrence(node_src, needle);
    assert(occurs_at(node_src, needle, off));
}

/// A directive `d` (namespace, start, end) of the file `source`: its range lies in the file
/// and holds the namespace's encoding.
pub open spec fn directive_in_source(source: Seq<u8>, d: (Seq<char>, int, int)) -> bool {
    &&& 0 <= d.1 <= d.2 <= source.len()
    &&& source.subrange(d.1, d.2) == encode_utf8(d.0)
}

proof fn lemma_child_directives_in_source(source: Seq<u8>, n: nat)
    ensures
        forall|i: int|
            0 <= i < child_directives(source, n).len() ==> directive_in_source(
                source,
                #[trigger] child_directives(source, n)[i],
            ),
    decreases n,
{
    if n > 0 {
        let k = n - 1;
        lemma_child_directives_in_source(source, (n - 1) as nat);
        let prev = child_directives(source, (n - 1) as nat);
        let last = child_directive(source, k);
        if last.len() > 0 {
            let raw = node_text(source, seq![k])->0;
            let (s, e) = ts_span(source, seq![k]);
            let sub = source.subrange(s, e);
            lemma_directive_bytes(raw, sub, s);
            let d = directive_of(raw, sub, s)->0;
            assert(source.subrange(d.1, d.2) =~= sub.subrange(d.1 - s, d.2 - s));
            assert(directive_in_source(source, last[0]));
        }
        assert forall|i: int| 0 <= i < child_directives(source, n).len() implies directive_in_source(
            source,
            #[trigger] child_directives(source, n)[i],
        ) by {
            if i < prev.len() {
                assert(child_directives(source, n)[i] == prev[i]);
            } else {
                assert(child_directives(source, n)[i] == last[i - prev.len()]);
            }
        }
    }
}

/// Every directive of a file's header records a byte range of the file that holds exactly
/// the encoding of the namespace it imports.
pub proof fn law_header_ranges(source: Seq<u8>)
    ensures
        forall|i: int|
            0 <= i < header_of(source).1.len() ==> directive_in_source(
                source,
                #[trigger] header_of(source).1[i],
            ),
{
    match namespace_child(source) {
        Some(k) => lemma_child_directives_in_source(source, k as nat),
        None => lemma_child_directives_in_source(source, ts_child_count(source, seq![])),
    }
}

/// Whether `path` names a C# source file: its extension is `cs`, in any ASCII case.
pub fn is_source_path(path: &str) -> (r: bool)
    ensures
        r == (crate::paths::extension_of(path@) is Some && crate::text::eq_ascii_case_insensitive(
            crate::paths::extension_of(path@)->0,
            "cs"@,
        )),
{
    crate::paths::has_extension(path, "cs")
}

} // verus!
