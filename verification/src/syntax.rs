//! Syntax trees from `tree-sitter`, read into the plain nodes that the
//! symbol index records.

use vstd::prelude::*;

use tree_sitter::{Language, Parser, Tree};
use tree_sitter_go::LANGUAGE as GO;
use tree_sitter_java::LANGUAGE as JAVA;
use tree_sitter_javascript::LANGUAGE as JAVASCRIPT;
use tree_sitter_kotlin_ng::LANGUAGE as KOTLIN;
use tree_sitter_python::LANGUAGE as PYTHON;
use tree_sitter_typescript::{LANGUAGE_TSX as TSX, LANGUAGE_TYPESCRIPT as TYPESCRIPT};

use crate::gitx::utf8_text;
use crate::index::SourceLanguage::{Go, Java, JavaScript, Kotlin, Python, Tsx, TypeScript};
use crate::index::{SourceLanguage, SyntaxNode, SyntaxNodeView, identifier_kind, is_identifier_kind, nodes_view};
use crate::text::lit_string;

verus! {

/// A node of a syntax tree as plain values: its kind, its byte range in the
/// source, its start row and column, and, where it has a parent, the
/// parent's kind and whether the node is the parent's child in a given
/// field.
#[derive(Debug)]
pub struct TreeNode {
    pub kind: String,
    pub start_byte: usize,
    pub end_byte: usize,
    pub row: usize,
    pub column: usize,
    pub parent: Option<(String, bool)>,
}

#[verifier::ext_equal]
pub struct TreeNodeView {
    pub kind: Seq<char>,
    pub start_byte: usize,
    pub end_byte: usize,
    pub row: usize,
    pub column: usize,
    pub parent: Option<(Seq<char>, bool)>,
}

impl View for TreeNode {
    type V = TreeNodeView;

    open spec fn view(&self) -> TreeNodeView {
        TreeNodeView {
            kind: self.kind@,
            start_byte: self.start_byte,
            end_byte: self.end_byte,
            row: self.row,
            column: self.column,
            parent: match self.parent {
                Some((k, c)) => Some((k@, c)),
                None => None,
            },
        }
    }
}

pub open spec fn tree_view(v: Seq<TreeNode>) -> Seq<TreeNodeView> {
    v.map_values(|n: TreeNode| n@)
}

/// The nodes, in preorder, of the syntax tree that `tree-sitter` parses
/// from `source` with the grammar of `lang`, each read with whether it is
/// its parent's child in the field `field`; `None` where the parser
/// refuses the grammar or gives no tree. Every value in it (kinds, byte
/// ranges, positions, the field test) is fixed by the grammar and the text.
pub uninterp spec fn parsed_tree(lang: SourceLanguage, source: Seq<char>, field: Seq<char>) -> Option<Seq<TreeNodeView>>;

/// A declaration of the syntax tree of `tree-sitter`.
#[verifier::external_type_specification]
#[verifier::external_body]
pub struct ExTree(Tree);

/// The nodes of the one syntax tree `t`, in preorder, as plain values, each
/// read with whether it is its parent's child in the field `field`.
pub uninterp spec fn tree_nodes(t: Tree, field: Seq<char>) -> Seq<TreeNodeView>;

/// Sets the grammar crate's `LANGUAGE` constant for `lang` on a new
/// `tree_sitter::Parser` (`Parser::set_language`) and calls `Parser::parse`
/// on `source` with no earlier tree. No timeout or cancellation is set.
/// What the tree holds as plain values (`tree_nodes`, which leaves out the
/// nodes' addresses) is then a function of the grammar and the text, named
/// by `parsed_tree`; the tree itself, with its addresses, is not.
#[verifier::external_body]
fn parse_source(lang: SourceLanguage, source: &str) -> (r: Option<Tree>)
    ensures
        match r {
            Some(t) => forall|field: Seq<char>| #[trigger] parsed_tree(lang, source@, field) == Some(tree_nodes(t, field)),
            None => forall|field: Seq<char>| #[trigger] parsed_tree(lang, source@, field) is None,
        },
{
    let mut parser = Parser::new();
    let g: Language = match lang {
        Java => JAVA, Kotlin => KOTLIN, Go => GO, Python => PYTHON, JavaScript => JAVASCRIPT,
        TypeScript => TYPESCRIPT, Tsx => TSX,
    }.into();
    parser.set_language(&g).ok()?;
    parser.parse(source, None)
}

/// Reads every node of `tree` in preorder (`Tree::walk`,
/// `Node::descendant_count`, `TreeCursor::goto_descendant`), each with its
/// kind, byte range, start position and parent: the parent's kind, and
/// whether `Node::child_by_field_name(field)` of the parent is this node
/// (tree-sitter's own `Node` equality).
#[verifier::external_body]
fn read_tree(tree: &Tree, field: &str) -> (r: Vec<TreeNode>)
    ensures
        tree_view(r@) == tree_nodes(*tree, field@),
{
    let mut c = tree.walk();
    (0..tree.root_node().descendant_count()).map(|i| { c.goto_descendant(i); let n = c.node(); let p = n.start_position();
        let parent = n.parent().map(|q| (q.kind().to_string(), q.child_by_field_name(field) == Some(n)));
        TreeNode { kind: n.kind().to_string(), start_byte: n.start_byte(), end_byte: n.end_byte(), row: p.row, column: p.column, parent }
    }).collect()
}

/// The text of the bytes `start..end` of `bytes`, where that range lies in
/// `bytes` and holds UTF-8.
pub open spec fn text_at(bytes: Seq<u8>, start: usize, end: usize) -> Option<Seq<char>> {
    if start <= end <= bytes.len() && vstd::utf8::valid_utf8(bytes.subrange(start as int, end as int)) {
        Some(vstd::utf8::decode_utf8(bytes.subrange(start as int, end as int)))
    } else {
        None
    }
}

/// What the index reads of a tree node of a source whose bytes are
/// `bytes`: its kind, its text, its start, its parent's kind, and whether
/// it is its parent's child in the field it was read with.
pub open spec fn syntax_node_of(bytes: Seq<u8>, n: TreeNodeView) -> SyntaxNodeView {
    SyntaxNodeView {
        kind: n.kind,
        text: text_at(bytes, n.start_byte, n.end_byte),
        row: n.row,
        column: n.column,
        parent_kind: match n.parent {
            Some((k, _)) => Some(k),
            None => None,
        },
        names_parent: match n.parent {
            Some((_, named)) => named,
            None => false,
        },
    }
}

/// The identifier nodes of `tree`, in order, as the index reads them.
pub open spec fn identifier_nodes(bytes: Seq<u8>, tree: Seq<TreeNodeView>) -> Seq<SyntaxNodeView>
    decreases tree.len(),
{
    if tree.len() == 0 {
        seq![]
    } else {
        let prev = identifier_nodes(bytes, tree.drop_last());
        if identifier_kind(tree.last().kind) {
            prev.push(syntax_node_of(bytes, tree.last()))
        } else {
            prev
        }
    }
}

/// The identifier nodes of the syntax tree of `source` with the grammar of
/// `lang`, in preorder, each read with whether it is its parent's child in
/// the field `field`; `None` where the parser gives no tree.
pub open spec fn syntax_nodes_spec(lang: SourceLanguage, source: Seq<char>, field: Seq<char>) -> Option<Seq<SyntaxNodeView>> {
    match parsed_tree(lang, source, field) {
        Some(t) => Some(identifier_nodes(vstd::utf8::encode_utf8(source), t)),
        None => None,
    }
}

/// The text of `bytes[start..end]`, where that range lies in `bytes` and
/// holds UTF-8.
fn text_of(bytes: &[u8], start: usize, end: usize) -> (r: Option<String>)
    ensures
        r is Some ==> start <= end <= bytes@.len() && vstd::utf8::valid_utf8(
            bytes@.subrange(start as int, end as int),
        ),
        r matches Some(s) ==> s@ == vstd::utf8::decode_utf8(bytes@.subrange(start as int, end as int)),
        start <= end <= bytes@.len() && vstd::utf8::valid_utf8(bytes@.subrange(start as int, end as int))
            ==> r is Some,
{
    if start > end || end > bytes.len() {
        return None;
    }
    let v = vstd::slice::slice_to_vec(&bytes[start..end]);
    utf8_text(v)
}

/// What the index reads of `node`, a node of a tree parsed from `bytes`.
fn read_node(node: &TreeNode, bytes: &[u8]) -> (r: SyntaxNode)
    ensures
        r@ == syntax_node_of(bytes@, node@),
{
    let text = text_of(bytes, node.start_byte, node.end_byte);
    let (parent_kind, names_parent) = match &node.parent {
        Some((k, named)) => (Some(lit_string(k.as_str())), *named),
        None => (None, false),
    };
    SyntaxNode {
        kind: lit_string(node.kind.as_str()),
        text,
        row: node.row,
        column: node.column,
        parent_kind,
        names_parent,
    }
}

/// Parses `source` with the grammar of `lang` and reads its identifier
/// nodes in preorder (nodes of other kinds add nothing to the index), each
/// with whether it is its parent's child in the field `field`; `None` where
/// the parser refuses the grammar or gives no tree.
pub fn syntax_nodes(lang: SourceLanguage, source: &str, field: &str) -> (r: Option<Vec<SyntaxNode>>)
    ensures
        match r {
            Some(nodes) => syntax_nodes_spec(lang, source@, field@) == Some(nodes_view(nodes@)),
            None => syntax_nodes_spec(lang, source@, field@) is None,
        },
{
    let tree = match parse_source(lang, source) {
        Some(t) => read_tree(&t, field),
        None => {
            return None;
        },
    };
    let bytes = source.as_bytes();
    let ghost tv = tree_view(tree@);
    let n = tree.len();
    let mut nodes: Vec<SyntaxNode> = Vec::new();
    let mut i: usize = 0;
    assert(tv.take(0) =~= Seq::<TreeNodeView>::empty());
    assert(nodes_view(nodes@) =~= Seq::<SyntaxNodeView>::empty());
    while i < n
        invariant
            n == tree@.len(),
            tv == tree_view(tree@),
            bytes@ == vstd::utf8::encode_utf8(source@),
            i <= n,
            nodes_view(nodes@) == identifier_nodes(bytes@, tv.take(i as int)),
        decreases n - i,
    {
        let node = &tree[i];
        assert(tv.take(i + 1).drop_last() =~= tv.take(i as int));
        assert(tv.take(i + 1).last() == node@);
        let ghost before = nodes_view(nodes@);
        if is_identifier_kind(node.kind.as_str()) {
            let sn = read_node(node, bytes);
            nodes.push(sn);
            assert(nodes_view(nodes@) =~= before.push(syntax_node_of(bytes@, node@)));
        }
        i = i + 1;
    }
    assert(tv.take(n as int) =~= tv);
    Some(nodes)
}

} // verus!
