//! Symbol extraction from Rust source (tree-sitter backed). Produces the same
//! `Symbol` shape the language-server path returns, so callers do not care
//! which backend answered.
//!
//! The parse itself belongs to tree-sitter. Its tree is read, through the
//! trusted accessors below, into plain [`SyntaxItem`]s holding exactly what
//! the symbol walk looks at; the walk over those items is verified against
//! [`symbols_spec`].

use tree_sitter::{Node, Parser, Tree};
use vstd::prelude::*;
use vstd::string::StringSliceAdditionalSpecFns;
use vstd::utf8::encode_utf8;

use crate::rpc::{opt_view, symbol_views, Location, Position, Range, Symbol, SymbolModel};
use crate::text::{chars_of, chars_eq, push_all, string_from_chars};

verus! {

/// `tree_sitter::Parser`, opaque.
#[verifier::external_type_specification]
#[verifier::external_body]
pub struct ExParser(Parser);

/// `tree_sitter::Tree`, opaque.
#[verifier::external_type_specification]
#[verifier::external_body]
pub struct ExTree(Tree);

/// `tree_sitter::Node`, opaque.
#[verifier::external_type_specification]
#[verifier::external_body]
pub struct ExNode<'a>(Node<'a>);

/// One step from a syntax node to a child: the `i`-th named child, or the
/// first child with a field name.
pub enum TsStep {
    Named(nat),
    Field(Seq<char>),
}

/// What one syntax node is: its kind, its number of named children, its
/// byte span in the source and its start and end `(row, column)`.
pub struct TsNode {
    pub kind: Seq<char>,
    pub named_count: nat,
    pub start_byte: nat,
    pub end_byte: nat,
    pub start: (usize, usize),
    pub end: (usize, usize),
}

/// A syntax subtree as the map from node paths to nodes.
pub type TsModel = Map<Seq<TsStep>, TsNode>;

/// What a `tree_sitter::Tree` holds: every node, by its path from the root
/// (the empty path).
pub uninterp spec fn ts_tree(t: Tree) -> Map<Seq<TsStep>, TsNode>;

/// What a `tree_sitter::Node` holds: every node of its subtree, by its path
/// from the node itself (the empty path).
pub uninterp spec fn ts_subtree(n: Node) -> Map<Seq<TsStep>, TsNode>;

/// The part of a subtree under the child reached by `step`.
pub open spec fn ts_child(m: TsModel, step: TsStep) -> TsModel {
    Map::new(|p: Seq<TsStep>| m.contains_key(seq![step] + p), |p: Seq<TsStep>| m[seq![step] + p])
}

/// Every node of `m` spans bytes inside a source of `len` bytes.
pub open spec fn spans_within(m: TsModel, len: nat) -> bool {
    forall|p: Seq<TsStep>| #[trigger] m.contains_key(p) ==> m[p].start_byte <= m[p].end_byte <= len
}

/// The tree that a fresh `tree_sitter::Parser`, set to the Rust grammar of
/// `tree_sitter_rust`, makes of the source bytes: every node by its path
/// from the root.
pub uninterp spec fn ts_parse(src: Seq<u8>) -> Map<Seq<TsStep>, TsNode>;

/// Calls `Parser::new`, `Parser::set_language` with
/// `tree_sitter_rust::LANGUAGE` and `Parser::parse` on the whole source:
/// the tree is [`ts_parse`] of the source bytes; it has a root, and every
/// node spans bytes of the source. The result is always `Some`:
/// `set_language` accepts a grammar whose ABI version lies between
/// tree-sitter's `MIN_COMPATIBLE_LANGUAGE_VERSION` (13) and
/// `LANGUAGE_VERSION` (14), and the Rust grammar is generated at 14;
/// `parse` returns `None` only without a language, after a timeout or on a
/// cancellation flag, and a fresh parser has neither of the last two.
#[verifier::external_body]
fn parse_rust(src: &str) -> (r: Option<Tree>)
    ensures
        r is Some,
        r matches Some(t) ==> ts_tree(t) == ts_parse(src.spec_bytes()) && ts_tree(t).contains_key(Seq::empty())
            && spans_within(ts_tree(t), src.spec_bytes().len()),
{
    let mut parser = Parser::new();
    parser.set_language(&tree_sitter_rust::LANGUAGE.into()).ok()?;
    parser.parse(src, None)
}

/// Calls `Tree::root_node`: the node whose subtree is the whole tree.
#[verifier::external_body]
fn root_of<'a>(t: &'a Tree) -> (r: Node<'a>)
    ensures
        ts_subtree(r) == ts_tree(*t),
{
    t.root_node()
}

/// Calls `Node::named_child_count`: the node's number of named children
/// (a `u32` in tree-sitter).
#[verifier::external_body]
fn named_child_count(n: &Node) -> (r: usize)
    ensures
        r == ts_subtree(*n)[Seq::empty()].named_count,
        r <= u32::MAX,
{
    n.named_child_count()
}

/// Calls `Node::named_child`: for `i` below the named-child count, the
/// `i`-th named child.
#[verifier::external_body]
fn named_child<'a>(n: &Node<'a>, i: usize) -> (r: Option<Node<'a>>)
    requires
        i <= u32::MAX,
    ensures
        i < ts_subtree(*n)[Seq::empty()].named_count ==> r is Some,
        r matches Some(c) ==> ts_subtree(*n).contains_key(seq![TsStep::Named(i as nat)]) && ts_subtree(c)
            == ts_child(ts_subtree(*n), TsStep::Named(i as nat)),
{
    n.named_child(i)
}

/// Calls `Node::kind`: the node's kind.
#[verifier::external_body]
fn node_kind(n: &Node) -> (r: &'static str)
    ensures
        r@ == ts_subtree(*n)[Seq::empty()].kind,
{
    n.kind()
}

/// Calls `Node::child_by_field_name`: the first child with that field
/// name, if any.
#[verifier::external_body]
fn field_child<'a>(n: &Node<'a>, field: &str) -> (r: Option<Node<'a>>)
    ensures
        r is Some <==> ts_subtree(*n).contains_key(seq![TsStep::Field(field@)]),
        r matches Some(c) ==> ts_subtree(c) == ts_child(ts_subtree(*n), TsStep::Field(field@)),
{
    n.child_by_field_name(field)
}

/// The text of a node of `src`: its bytes, when they are valid UTF-8.
pub open spec fn node_text_spec(t: TsNode, src: Seq<u8>) -> Option<Seq<char>> {
    let b = src.subrange(t.start_byte as int, t.end_byte as int);
    if vstd::utf8::valid_utf8(b) {
        Some(vstd::utf8::decode_utf8(b))
    } else {
        None
    }
}

/// Calls `Node::utf8_text` on `src` (which slices `src` by the node's byte
/// span, so the span must lie inside it) and owns the text: the span's
/// characters when it is valid UTF-8.
#[verifier::external_body]
fn node_text(n: &Node, src: &[u8]) -> (r: Option<String>)
    requires
        ts_subtree(*n)[Seq::empty()].start_byte <= ts_subtree(*n)[Seq::empty()].end_byte <= src@.len(),
    ensures
        opt_view(r) == node_text_spec(ts_subtree(*n)[Seq::empty()], src@),
{
    n.utf8_text(src).ok().map(|s| s.to_string())
}

/// Calls `Node::start_position`, as `(row, column)`.
#[verifier::external_body]
fn start_point(n: &Node) -> (r: (usize, usize))
    ensures
        r == ts_subtree(*n)[Seq::empty()].start,
{
    let p = n.start_position();
    (p.row, p.column)
}

/// Calls `Node::end_position`, as `(row, column)`.
#[verifier::external_body]
fn end_point(n: &Node) -> (r: (usize, usize))
    ensures
        r == ts_subtree(*n)[Seq::empty()].end,
{
    let p = n.end_position();
    (p.row, p.column)
}

/// One named child of a syntax node, as the symbol walk sees it.
#[derive(Debug)]
pub struct SyntaxItem {
    /// The grammar node kind (`function_item`, `impl_item`, ...).
    pub kind: String,
    /// The text of the `name` field, when present.
    pub name: Option<String>,
    /// The text of the `type` field, when present (an impl's target type).
    pub target_type: Option<String>,
    /// The node's span (0-based rows and columns).
    pub range: Range,
    /// For an `impl_item`: the named children of its `body`.
    pub body: Vec<SyntaxItem>,
}

/// The symbol kind a definition node reports, if it is one the walk knows.
pub open spec fn kind_label(k: Seq<char>) -> Option<Seq<char>> {
    if k == "function_item"@ {
        Some("function"@)
    } else if k == "struct_item"@ {
        Some("class"@)
    } else if k == "enum_item"@ {
        Some("enum"@)
    } else if k == "trait_item"@ {
        Some("interface"@)
    } else if k == "mod_item"@ {
        Some("module"@)
    } else if k == "impl_item"@ {
        Some("impl"@)
    } else {
        None
    }
}

/// `prefix/name`, or `name` alone at top level.
pub open spec fn name_path_of(prefix: Seq<char>, name: Seq<char>) -> Seq<char> {
    if prefix.len() == 0 {
        name
    } else {
        prefix + seq!['/'] + name
    }
}

/// An optional text, empty when absent.
pub open spec fn text_or_empty(o: Option<String>) -> Seq<char> {
    match o {
        Some(s) => s@,
        None => Seq::empty(),
    }
}

/// The symbols the walk reports for `items` (named children of one node),
/// in order: each known definition becomes one symbol under `prefix`; an
/// `impl` contributes the symbols of its body under the impl's type name.
pub open spec fn symbols_spec(items: Seq<SyntaxItem>, repo: Seq<char>, path: Seq<char>, prefix: Seq<char>) -> Seq<SymbolModel>
    decreases items,
{
    if items.len() == 0 {
        Seq::empty()
    } else {
        let it = items[items.len() - 1];
        let earlier = symbols_spec(items.subrange(0, items.len() - 1), repo, path, prefix);
        match kind_label(it.kind@) {
            None => earlier,
            Some(label) => if it.kind@ == "impl_item"@ {
                proof {
                    assert(decreases_to!(items => items[items.len() - 1]));
                    assert(decreases_to!(it => it.body));
                    assert(decreases_to!(it.body => it.body@));
                }
                earlier + symbols_spec(it.body@, repo, path, text_or_empty(it.target_type))
            } else {
                earlier + seq![SymbolModel {
                    name: text_or_empty(it.name),
                    name_path: name_path_of(prefix, text_or_empty(it.name)),
                    kind: label,
                    repo: repo,
                    path: path,
                    range: it.range,
                    body: None,
                    children: 0,
                }]
            }
        }
    }
}

/// `syms` are the symbols of the Rust source `src` (a file of `repo` at
/// `path`): what the symbol walk reports for the items read from the
/// source's parse tree.
pub open spec fn is_walk(syms: Seq<SymbolModel>, src: Seq<char>, repo: Seq<char>, path: Seq<char>) -> bool {
    exists|items: Seq<SyntaxItem>|
        #![trigger symbols_spec(items, repo, path, Seq::empty())]
        parsed_items(items, encode_utf8(src)) && syms == symbols_spec(items, repo, path, Seq::empty())
}

/// A walk result: located in `repo`/`path`, without body or children, of a
/// known kind.
pub open spec fn symbol_at_file(s: SymbolModel, repo: Seq<char>, path: Seq<char>) -> bool {
    &&& s.repo == repo
    &&& s.path == path
    &&& s.body is None
    &&& s.children == 0
    &&& (s.kind == "function"@ || s.kind == "class"@ || s.kind == "enum"@ || s.kind == "interface"@
        || s.kind == "module"@)
}

/// Every symbol the walk reports is located in the given file, carries no
/// body and no children, and has one of the known kinds.
pub proof fn lemma_symbols_at_file(items: Seq<SyntaxItem>, repo: Seq<char>, path: Seq<char>, prefix: Seq<char>)
    ensures
        forall|i: int| 0 <= i < symbols_spec(items, repo, path, prefix).len() ==> symbol_at_file(
            #[trigger] symbols_spec(items, repo, path, prefix)[i],
            repo,
            path,
        ),
    decreases items,
{
    if items.len() > 0 {
        let it = items[items.len() - 1];
        let front = items.subrange(0, items.len() - 1);
        lemma_symbols_at_file(front, repo, path, prefix);
        let full = symbols_spec(items, repo, path, prefix);
        let earlier = symbols_spec(front, repo, path, prefix);
        if kind_label(it.kind@) is Some && it.kind@ == "impl_item"@ {
            assert(decreases_to!(items => items[items.len() - 1]));
            assert(decreases_to!(it => it.body));
            assert(decreases_to!(it.body => it.body@));
            let inner = symbols_spec(it.body@, repo, path, text_or_empty(it.target_type));
            lemma_symbols_at_file(it.body@, repo, path, text_or_empty(it.target_type));
            assert(full == earlier + inner);
            assert forall|i: int| 0 <= i < full.len() implies symbol_at_file(#[trigger] full[i], repo, path) by {
                if i < earlier.len() {
                    assert(full[i] == earlier[i]);
                } else {
                    assert(full[i] == inner[i - earlier.len()]);
                }
            }
        } else if kind_label(it.kind@) is Some {
            assert(full.len() == earlier.len() + 1);
            assert forall|i: int| 0 <= i < full.len() implies symbol_at_file(#[trigger] full[i], repo, path) by {
                if i < earlier.len() {
                    assert(full[i] == earlier[i]);
                }
            }
        } else {
            assert(full == earlier);
        }
    }
}

/// `symbol_views` distributes over concatenation.
pub proof fn lemma_symbol_views_add(a: Seq<Symbol>, b: Seq<Symbol>)
    ensures
        symbol_views(a + b) == symbol_views(a) + symbol_views(b),
{
    assert(symbol_views(a + b) =~= symbol_views(a) + symbol_views(b));
}

/// The label for a node kind, or `None` when the walk skips the node.
fn kind_label_exec(k: &[char]) -> (r: Option<&'static str>)
    ensures
        match r {
            Some(l) => kind_label(k@) == Some(l@),
            None => kind_label(k@) is None,
        },
{
    if chars_eq(k, chars_of("function_item").as_slice()) {
        Some("function")
    } else if chars_eq(k, chars_of("struct_item").as_slice()) {
        Some("class")
    } else if chars_eq(k, chars_of("enum_item").as_slice()) {
        Some("enum")
    } else if chars_eq(k, chars_of("trait_item").as_slice()) {
        Some("interface")
    } else if chars_eq(k, chars_of("mod_item").as_slice()) {
        Some("module")
    } else if chars_eq(k, chars_of("impl_item").as_slice()) {
        Some("impl")
    } else {
        None
    }
}

/// An optional text, empty when absent.
fn text_or_empty_exec(o: &Option<String>) -> (r: Vec<char>)
    ensures
        r@ == text_or_empty(*o),
{
    match o {
        Some(s) => chars_of(s.as_str()),
        None => Vec::new(),
    }
}

/// The symbols for `items` under `prefix` (see [`symbols_spec`]).
pub fn symbols_from(items: &Vec<SyntaxItem>, repo: &str, path: &str, prefix: &[char]) -> (out: Vec<Symbol>)
    ensures
        symbol_views(out@) == symbols_spec(items@, repo@, path@, prefix@),
    decreases items@,
{
    let mut out: Vec<Symbol> = Vec::new();
    let mut k: usize = 0;
    assert(items@.subrange(0, 0) =~= Seq::<SyntaxItem>::empty());
    while k < items.len()
        invariant
            0 <= k <= items@.len(),
            symbol_views(out@) == symbols_spec(items@.subrange(0, k as int), repo@, path@, prefix@),
        decreases items@.len() - k,
    {
        let it = &items[k];
        let ghost sub = items@.subrange(0, k as int + 1);
        assert(sub.subrange(0, sub.len() - 1) =~= items@.subrange(0, k as int));
        assert(sub[sub.len() - 1] == items@[k as int]);
        let kc = chars_of(it.kind.as_str());
        match kind_label_exec(kc.as_slice()) {
            None => {},
            Some(label) => {
                if chars_eq(kc.as_slice(), chars_of("impl_item").as_slice()) {
                    let tn = text_or_empty_exec(&it.target_type);
                    proof {
                        assert(decreases_to!(items@ => items@[k as int]));
                        assert(decreases_to!(items@[k as int] => items@[k as int].body));
                        assert(decreases_to!(items@[k as int].body => items@[k as int].body@));
                    }
                    let mut more = symbols_from(&it.body, repo, path, tn.as_slice());
                    let ghost o = out@;
                    let ghost m = more@;
                    out.append(&mut more);
                    proof {
                        lemma_symbol_views_add(o, m);
                    }
                } else {
                    let name = text_or_empty_exec(&it.name);
                    let mut np: Vec<char> = Vec::new();
                    if prefix.len() > 0 {
                        push_all(&mut np, prefix);
                        np.push('/');
                    }
                    push_all(&mut np, name.as_slice());
                    assert(np@ =~= name_path_of(prefix@, name@));
                    let sym = Symbol {
                        name: string_from_chars(name.as_slice()),
                        name_path: string_from_chars(np.as_slice()),
                        kind: label.to_owned(),
                        location: Location { repo: repo.to_owned(), path: path.to_owned(), range: it.range },
                        body: None,
                        children: Vec::new(),
                    };
                    let ghost o = out@;
                    out.push(sym);
                    proof {
                        lemma_symbol_views_add(o, seq![sym]);
                        assert(o.push(sym) =~= o + seq![sym]);
                        assert(symbol_views(seq![sym]) =~= seq![sym@]);
                    }
                }
            },
        }
        k = k + 1;
    }
    assert(items@.subrange(0, k as int) =~= items@);
    out
}

/// The text of the field `f` of the node at the root of `c`, if the node has
/// such a field.
pub open spec fn field_text(c: TsModel, f: Seq<char>, src: Seq<u8>) -> Option<Seq<char>> {
    if c.contains_key(seq![TsStep::Field(f)]) {
        node_text_spec(c[seq![TsStep::Field(f)]], src)
    } else {
        None
    }
}

/// The range a node spans, its rows and columns as `u32`.
pub open spec fn range_of(t: TsNode) -> Range {
    Range {
        start: Position { line: t.start.0 as u32, character: t.start.1 as u32 },
        end: Position { line: t.end.0 as u32, character: t.end.1 as u32 },
    }
}

/// `it` is what the walk reads of the node at the root of `c`: its kind,
/// the texts of its `name` and `type` fields, its range and, for an
/// `impl_item` while `depth` lasts, the items of its `body` field.
pub open spec fn item_of(it: SyntaxItem, c: TsModel, src: Seq<u8>, depth: nat) -> bool
    decreases depth, 0nat,
{
    let t = c[Seq::empty()];
    &&& it.kind@ == t.kind
    &&& opt_view(it.name) == field_text(c, "name"@, src)
    &&& opt_view(it.target_type) == field_text(c, "type"@, src)
    &&& it.range == range_of(t)
    &&& if t.kind == "impl_item"@ && depth > 0 && c.contains_key(seq![TsStep::Field("body"@)]) {
        items_of(it.body@, ts_child(c, TsStep::Field("body"@)), src, (depth - 1) as nat)
    } else {
        it.body@.len() == 0
    }
}

/// `items` are what the walk reads of the named children of the node at
/// the root of `m`, in order.
pub open spec fn items_of(items: Seq<SyntaxItem>, m: TsModel, src: Seq<u8>, depth: nat) -> bool
    decreases depth, 1nat,
{
    &&& items.len() == m[Seq::empty()].named_count
    &&& forall|i: int|
        0 <= i < items.len() ==> item_of(#[trigger] items[i], ts_child(m, TsStep::Named(i as nat)), src, depth)
}

/// Read the named children of `node` into [`SyntaxItem`]s; impl bodies are
/// followed while `depth` lasts (the source length is always enough, since
/// every nested impl takes at least one byte of source).
fn collect_items(node: &Node, src: &[u8], depth: usize) -> (items: Vec<SyntaxItem>)
    requires
        ts_subtree(*node).contains_key(Seq::empty()),
        spans_within(ts_subtree(*node), src@.len()),
    ensures
        items_of(items@, ts_subtree(*node), src@, depth as nat),
    decreases depth,
{
    let ghost m = ts_subtree(*node);
    let mut items: Vec<SyntaxItem> = Vec::new();
    let n = named_child_count(node);
    let mut i: usize = 0;
    while i < n
        invariant
            m == ts_subtree(*node),
            spans_within(m, src@.len()),
            n == m[Seq::empty()].named_count,
            n <= u32::MAX,
            i <= n,
            items@.len() == i,
            forall|j: int|
                0 <= j < i ==> item_of(#[trigger] items@[j], ts_child(m, TsStep::Named(j as nat)), src@, depth as nat),
        decreases n - i,
    {
        if let Some(child) = named_child(node, i) {
            let ghost c = ts_child(m, TsStep::Named(i as nat));
            assert(ts_subtree(child) == c);
            assert(c.contains_key(Seq::empty())) by {
                assert(seq![TsStep::Named(i as nat)] + Seq::<TsStep>::empty() =~= seq![TsStep::Named(i as nat)]);
            }
            assert(spans_within(c, src@.len())) by {
                assert forall|p: Seq<TsStep>| #[trigger] c.contains_key(p) implies c[p].start_byte <= c[p].end_byte
                    <= src@.len() by {
                    assert(m.contains_key(seq![TsStep::Named(i as nat)] + p));
                }
            }
            let kind = node_kind(&child);
            let name = match field_child(&child, "name") {
                Some(f) => {
                    proof {
                        let fp = seq![TsStep::Field("name"@)];
                        assert(fp + Seq::<TsStep>::empty() =~= fp);
                        assert(ts_subtree(f)[Seq::empty()] == c[fp]);
                        assert(c.contains_key(fp));
                    }
                    node_text(&f, src)
                },
                None => None,
            };
            let target_type = match field_child(&child, "type") {
                Some(f) => {
                    proof {
                        let fp = seq![TsStep::Field("type"@)];
                        assert(fp + Seq::<TsStep>::empty() =~= fp);
                        assert(ts_subtree(f)[Seq::empty()] == c[fp]);
                        assert(c.contains_key(fp));
                    }
                    node_text(&f, src)
                },
                None => None,
            };
            let kc = chars_of(kind);
            let body = if chars_eq(kc.as_slice(), chars_of("impl_item").as_slice()) && depth > 0 {
                match field_child(&child, "body") {
                    Some(b) => {
                        proof {
                            let fp = seq![TsStep::Field("body"@)];
                            let bm = ts_child(c, TsStep::Field("body"@));
                            assert(fp + Seq::<TsStep>::empty() =~= fp);
                            assert(bm.contains_key(Seq::empty()));
                            assert forall|p: Seq<TsStep>| #[trigger] bm.contains_key(p) implies bm[p].start_byte
                                <= bm[p].end_byte <= src@.len() by {
                                assert(c.contains_key(fp + p));
                            }
                        }
                        collect_items(&b, src, depth - 1)
                    },
                    None => Vec::new(),
                }
            } else {
                Vec::new()
            };
            let (sr, sc) = start_point(&child);
            let (er, ec) = end_point(&child);
            let range = Range {
                start: Position { line: sr as u32, character: sc as u32 },
                end: Position { line: er as u32, character: ec as u32 },
            };
            let it = SyntaxItem { kind: kind.to_owned(), name, target_type, range, body };
            assert(item_of(it, c, src@, depth as nat));
            items.push(it);
        }
        i = i + 1;
    }
    items
}

/// `items` are what the walk reads, with the source length as depth, of
/// the parse tree of `src`.
pub open spec fn parsed_items(items: Seq<SyntaxItem>, src: Seq<u8>) -> bool {
    items_of(items, ts_parse(src), src, src.len())
}

/// Two readings of the same named children report the same symbols.
proof fn lemma_items_agree(
    i1: Seq<SyntaxItem>,
    i2: Seq<SyntaxItem>,
    m: TsModel,
    src: Seq<u8>,
    depth: nat,
    repo: Seq<char>,
    path: Seq<char>,
    prefix: Seq<char>,
)
    requires
        i1.len() == i2.len(),
        forall|k: int|
            0 <= k < i1.len() ==> item_of(#[trigger] i1[k], ts_child(m, TsStep::Named(k as nat)), src, depth)
                && item_of(i2[k], ts_child(m, TsStep::Named(k as nat)), src, depth),
    ensures
        symbols_spec(i1, repo, path, prefix) == symbols_spec(i2, repo, path, prefix),
    decreases depth, i1.len(),
{
    if i1.len() > 0 {
        let n = i1.len() - 1;
        let f1 = i1.subrange(0, n);
        let f2 = i2.subrange(0, n);
        assert forall|k: int| 0 <= k < f1.len() implies item_of(
            #[trigger] f1[k],
            ts_child(m, TsStep::Named(k as nat)),
            src,
            depth,
        ) && item_of(f2[k], ts_child(m, TsStep::Named(k as nat)), src, depth) by {
            assert(f1[k] == i1[k]);
            assert(f2[k] == i2[k]);
        }
        lemma_items_agree(f1, f2, m, src, depth, repo, path, prefix);
        let it1 = i1[n];
        let it2 = i2[n];
        let c = ts_child(m, TsStep::Named(n as nat));
        assert(item_of(it1, c, src, depth) && item_of(it2, c, src, depth));
        assert(text_or_empty(it1.name) == text_or_empty(it2.name));
        assert(text_or_empty(it1.target_type) == text_or_empty(it2.target_type));
        let t = c[Seq::empty()];
        if t.kind == "impl_item"@ && depth > 0 && c.contains_key(seq![TsStep::Field("body"@)]) {
            let cb = ts_child(c, TsStep::Field("body"@));
            assert(items_of(it1.body@, cb, src, (depth - 1) as nat));
            assert(items_of(it2.body@, cb, src, (depth - 1) as nat));
            lemma_items_agree(
                it1.body@,
                it2.body@,
                cb,
                src,
                (depth - 1) as nat,
                repo,
                path,
                text_or_empty(it1.target_type),
            );
        } else {
            assert(it1.body@ =~= it2.body@);
        }
    }
}

/// The symbols of a source are determined by it: two walks of the same
/// source (in the same file) are the same.
pub proof fn lemma_walk_unique(s1: Seq<SymbolModel>, s2: Seq<SymbolModel>, src: Seq<char>, repo: Seq<char>, path: Seq<char>)
    requires
        is_walk(s1, src, repo, path),
        is_walk(s2, src, repo, path),
    ensures
        s1 == s2,
{
    let b = encode_utf8(src);
    let i1 = choose|items: Seq<SyntaxItem>|
        #![trigger symbols_spec(items, repo, path, Seq::empty())]
        parsed_items(items, b) && s1 == symbols_spec(items, repo, path, Seq::empty());
    let i2 = choose|items: Seq<SyntaxItem>|
        #![trigger symbols_spec(items, repo, path, Seq::empty())]
        parsed_items(items, b) && s2 == symbols_spec(items, repo, path, Seq::empty());
    lemma_items_agree(i1, i2, ts_parse(b), b, b.len(), repo, path, Seq::empty());
}

/// The symbols of two runs of items are those of each, one after the other.
proof fn lemma_symbols_spec_append(a: Seq<SyntaxItem>, b: Seq<SyntaxItem>, repo: Seq<char>, path: Seq<char>, prefix: Seq<char>)
    ensures
        symbols_spec(a + b, repo, path, prefix) == symbols_spec(a, repo, path, prefix) + symbols_spec(b, repo, path, prefix),
    decreases b.len(),
{
    if b.len() == 0 {
        assert(a + b =~= a);
        assert(symbols_spec(a, repo, path, prefix) + symbols_spec(b, repo, path, prefix) =~= symbols_spec(a, repo, path, prefix));
    } else {
        let ab = a + b;
        let bf = b.subrange(0, b.len() - 1);
        lemma_symbols_spec_append(a, bf, repo, path, prefix);
        assert(ab.subrange(0, ab.len() - 1) =~= a + bf);
        assert(ab[ab.len() - 1] == b[b.len() - 1]);
        let sa = symbols_spec(a, repo, path, prefix);
        let sb = symbols_spec(bf, repo, path, prefix);
        let it = b[b.len() - 1];
        assert(symbols_spec(ab, repo, path, prefix) =~= sa + symbols_spec(b, repo, path, prefix)) by {
            match kind_label(it.kind@) {
                None => {},
                Some(label) => {
                    if it.kind@ == "impl_item"@ {
                        assert(decreases_to!(b => b[b.len() - 1]));
                        assert(decreases_to!(it => it.body));
                        assert(decreases_to!(it.body => it.body@));
                        assert(decreases_to!(ab => ab[ab.len() - 1]));
                        let inner = symbols_spec(it.body@, repo, path, text_or_empty(it.target_type));
                        assert(sa + sb + inner =~= sa + (sb + inner));
                    } else {
                        let one = seq![SymbolModel {
                            name: text_or_empty(it.name),
                            name_path: name_path_of(prefix, text_or_empty(it.name)),
                            kind: label,
                            repo: repo,
                            path: path,
                            range: it.range,
                            body: None,
                            children: 0,
                        }];
                        assert(sa + sb + one =~= sa + (sb + one));
                    }
                },
            }
        }
    }
}

/// The symbol walk reports every top-level definition of the parse tree:
/// for each named child of the root that is a function, struct, enum,
/// trait or module item, some symbol has its `name` text as name and name
/// path, its range, and kind `function`, `class`, `enum`, `interface` or
/// `module` respectively.
pub proof fn lemma_walk_reports_definitions(syms: Seq<SymbolModel>, src: Seq<char>, repo: Seq<char>, path: Seq<char>, k: int)
    requires
        is_walk(syms, src, repo, path),
        0 <= k < ts_parse(encode_utf8(src))[Seq::empty()].named_count,
    ensures
        ({
            let b = encode_utf8(src);
            let c = ts_child(ts_parse(b), TsStep::Named(k as nat));
            let t = c[Seq::empty()];
            let name = match field_text(c, "name"@, b) {
                Some(x) => x,
                None => Seq::empty(),
            };
            (t.kind == "function_item"@ || t.kind == "struct_item"@ || t.kind == "enum_item"@ || t.kind
                == "trait_item"@ || t.kind == "mod_item"@) ==> exists|i: int|
                0 <= i < syms.len() && {
                    let s = #[trigger] syms[i];
                    &&& s.name == name
                    &&& s.name_path == name
                    &&& s.range == range_of(t)
                    &&& s.repo == repo && s.path == path
                    &&& (t.kind == "function_item"@ ==> s.kind == "function"@)
                    &&& (t.kind == "struct_item"@ ==> s.kind == "class"@)
                    &&& (t.kind == "enum_item"@ ==> s.kind == "enum"@)
                    &&& (t.kind == "trait_item"@ ==> s.kind == "interface"@)
                    &&& (t.kind == "mod_item"@ ==> s.kind == "module"@)
                }
        }),
{
    let b = encode_utf8(src);
    let m = ts_parse(b);
    let c = ts_child(m, TsStep::Named(k as nat));
    let t = c[Seq::empty()];
    let items = choose|items: Seq<SyntaxItem>|
        #![trigger symbols_spec(items, repo, path, Seq::empty())]
        parsed_items(items, b) && syms == symbols_spec(items, repo, path, Seq::empty());
    assert(items_of(items, m, b, b.len()));
    let it = items[k];
    assert(item_of(it, c, b, b.len()));
    if t.kind == "function_item"@ || t.kind == "struct_item"@ || t.kind == "enum_item"@ || t.kind == "trait_item"@
        || t.kind == "mod_item"@ {
        lemma_kind_labels();
        let pre = items.take(k);
        let upto = items.take(k + 1);
        let rest = items.skip(k + 1);
        assert(items =~= upto + rest);
        lemma_symbols_spec_append(upto, rest, repo, path, Seq::empty());
        assert(upto.subrange(0, upto.len() - 1) =~= pre);
        assert(upto[upto.len() - 1] == it);
        let sp = symbols_spec(pre, repo, path, Seq::empty());
        let su = symbols_spec(upto, repo, path, Seq::empty());
        assert(it.kind@ == t.kind);
        assert(kind_label(it.kind@) is Some);
        assert(it.kind@ != "impl_item"@);
        assert(su == sp + seq![SymbolModel {
            name: text_or_empty(it.name),
            name_path: name_path_of(Seq::empty(), text_or_empty(it.name)),
            kind: kind_label(it.kind@)->Some_0,
            repo: repo,
            path: path,
            range: it.range,
            body: None,
            children: 0,
        }]);
        assert(su.len() == sp.len() + 1);
        let i = sp.len() as int;
        assert(syms[i] == su[i]);
        assert(text_or_empty(it.name) == (match field_text(c, "name"@, b) {
            Some(x) => x,
            None => Seq::<char>::empty(),
        }));
        assert(syms[i].name == text_or_empty(it.name));
        assert(syms[i].range == range_of(t));
        assert(syms[i].kind == kind_label(t.kind)->Some_0);
    }
}

/// The symbol walk reports the methods of each top-level impl: for a
/// function item among the named children of an impl's body, some symbol
/// has its `name` text as name, `Type/name` as name path (the impl's `type`
/// text, or the bare name when there is none), its range and kind
/// `function`.
pub proof fn lemma_walk_reports_methods(
    syms: Seq<SymbolModel>,
    src: Seq<char>,
    repo: Seq<char>,
    path: Seq<char>,
    k: int,
    j: int,
)
    requires
        is_walk(syms, src, repo, path),
        encode_utf8(src).len() > 0,
        0 <= k < ts_parse(encode_utf8(src))[Seq::empty()].named_count,
        ts_child(ts_parse(encode_utf8(src)), TsStep::Named(k as nat))[Seq::empty()].kind == "impl_item"@,
        ts_child(ts_parse(encode_utf8(src)), TsStep::Named(k as nat)).contains_key(seq![TsStep::Field("body"@)]),
        0 <= j < ts_child(ts_parse(encode_utf8(src)), TsStep::Named(k as nat))[seq![TsStep::Field("body"@)]].named_count,
        ts_child(
            ts_child(ts_child(ts_parse(encode_utf8(src)), TsStep::Named(k as nat)), TsStep::Field("body"@)),
            TsStep::Named(j as nat),
        )[Seq::empty()].kind == "function_item"@,
    ensures
        ({
            let b = encode_utf8(src);
            let c = ts_child(ts_parse(b), TsStep::Named(k as nat));
            let d = ts_child(ts_child(c, TsStep::Field("body"@)), TsStep::Named(j as nat));
            let name = match field_text(d, "name"@, b) {
                Some(x) => x,
                None => Seq::empty(),
            };
            let ty = match field_text(c, "type"@, b) {
                Some(x) => x,
                None => Seq::empty(),
            };
            exists|i: int|
                0 <= i < syms.len() && {
                    let s = #[trigger] syms[i];
                    &&& s.name == name
                    &&& s.name_path == (if ty.len() == 0 {
                        name
                    } else {
                        ty + seq!['/'] + name
                    })
                    &&& s.kind == "function"@
                    &&& s.range == range_of(d[Seq::empty()])
                    &&& s.repo == repo && s.path == path
                }
        }),
{
    let b = encode_utf8(src);
    let m = ts_parse(b);
    let c = ts_child(m, TsStep::Named(k as nat));
    let cb = ts_child(c, TsStep::Field("body"@));
    let d = ts_child(cb, TsStep::Named(j as nat));
    lemma_kind_labels();
    reveal_strlit("impl_item");
    reveal_strlit("function_item");
    assert(kind_label("impl_item"@) is Some) by {
        assert("impl_item"@[0] == 'i');
        assert("function_item"@[0] == 'f');
        reveal_strlit("struct_item");
        reveal_strlit("enum_item");
        reveal_strlit("trait_item");
        reveal_strlit("mod_item");
        assert("struct_item"@[0] == 's');
        assert("enum_item"@[0] == 'e');
        assert("trait_item"@[0] == 't');
        assert("mod_item"@[0] == 'm');
    }
    let items = choose|items: Seq<SyntaxItem>|
        #![trigger symbols_spec(items, repo, path, Seq::empty())]
        parsed_items(items, b) && syms == symbols_spec(items, repo, path, Seq::empty());
    assert(items_of(items, m, b, b.len()));
    let it = items[k];
    assert(item_of(it, c, b, b.len()));
    assert(cb[Seq::empty()] == c[seq![TsStep::Field("body"@)]]) by {
        assert(seq![TsStep::Field("body"@)] + Seq::<TsStep>::empty() =~= seq![TsStep::Field("body"@)]);
    }
    let body = it.body@;
    assert(items_of(body, cb, b, (b.len() - 1) as nat));
    let ty = text_or_empty(it.target_type);
    let bi = body[j];
    assert(item_of(bi, d, b, (b.len() - 1) as nat));
    // the body's symbols contain the method
    let bpre = body.take(j);
    let bup = body.take(j + 1);
    let brest = body.skip(j + 1);
    assert(body =~= bup + brest);
    lemma_symbols_spec_append(bup, brest, repo, path, ty);
    assert(bup.subrange(0, bup.len() - 1) =~= bpre);
    assert(bup[bup.len() - 1] == bi);
    assert(bi.kind@ == "function_item"@);
    let bsp = symbols_spec(bpre, repo, path, ty);
    let sym = SymbolModel {
        name: text_or_empty(bi.name),
        name_path: name_path_of(ty, text_or_empty(bi.name)),
        kind: "function"@,
        repo: repo,
        path: path,
        range: bi.range,
        body: None,
        children: 0,
    };
    assert(symbols_spec(bup, repo, path, ty) == bsp + seq![sym]);
    let bs = symbols_spec(body, repo, path, ty);
    assert(bs[bsp.len() as int] == sym);
    // the file's symbols contain the body's
    let pre = items.take(k);
    let upto = items.take(k + 1);
    let rest = items.skip(k + 1);
    assert(items =~= upto + rest);
    lemma_symbols_spec_append(upto, rest, repo, path, Seq::empty());
    assert(upto.subrange(0, upto.len() - 1) =~= pre);
    assert(upto[upto.len() - 1] == it);
    assert(it.kind@ == "impl_item"@);
    let sp = symbols_spec(pre, repo, path, Seq::empty());
    assert(symbols_spec(upto, repo, path, Seq::empty()) == sp + bs);
    let i: int = (sp.len() + bsp.len()) as int;
    assert(syms[i] == sym);
    assert(text_or_empty(bi.name) == (match field_text(d, "name"@, b) {
        Some(x) => x,
        None => Seq::<char>::empty(),
    }));
}

/// The labels of the definition kinds, and the kinds told apart.
proof fn lemma_kind_labels()
    ensures
        kind_label("function_item"@) == Some("function"@),
        kind_label("struct_item"@) == Some("class"@),
        kind_label("enum_item"@) == Some("enum"@),
        kind_label("trait_item"@) == Some("interface"@),
        kind_label("mod_item"@) == Some("module"@),
        "function_item"@ != "impl_item"@,
        "struct_item"@ != "impl_item"@,
        "enum_item"@ != "impl_item"@,
        "trait_item"@ != "impl_item"@,
        "mod_item"@ != "impl_item"@,
{
    reveal_strlit("function_item");
    reveal_strlit("struct_item");
    reveal_strlit("enum_item");
    reveal_strlit("trait_item");
    reveal_strlit("mod_item");
    reveal_strlit("impl_item");
    assert("function_item"@[0] == 'f');
    assert("struct_item"@[0] == 's');
    assert("enum_item"@[0] == 'e');
    assert("trait_item"@[0] == 't');
    assert("mod_item"@[0] == 'm');
    assert("impl_item"@[0] == 'i');
}

/// Parse `src` as Rust and read its top-level named nodes: what the walk
/// reads of the parse tree of `src`.
pub fn rust_syntax_items(src: &str) -> (items: Vec<SyntaxItem>)
    ensures
        parsed_items(items@, src.spec_bytes()),
{
    let tree = parse_rust(src).unwrap();
    let root = root_of(&tree);
    let bytes = src.as_bytes();
    collect_items(&root, bytes, bytes.len())
}

/// Extract top-level and impl-method symbols from a Rust source string.
pub fn rust_symbols(src: &str, repo: &str, path: &str) -> (out: Vec<Symbol>)
    ensures
        is_walk(symbol_views(out@), src@, repo@, path@),
        forall|i: int| 0 <= i < out@.len() ==> symbol_at_file(#[trigger] out@[i]@, repo@, path@),
{
    let items = rust_syntax_items(src);
    let empty: Vec<char> = Vec::new();
    let out = symbols_from(&items, repo, path, empty.as_slice());
    assert(symbol_views(out@) == symbols_spec(items@, repo@, path@, Seq::empty()));
    proof {
        lemma_symbols_at_file(items@, repo@, path@, Seq::empty());
        assert forall|i: int| 0 <= i < out@.len() implies symbol_at_file(#[trigger] out@[i]@, repo@, path@) by {
            assert(symbol_views(out@)[i] == out@[i]@);
        }
    }
    out
}

} // verus!
