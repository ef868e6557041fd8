//! The symbol index: identifiers of source files, as declarations or as
//! references, by name.

use vstd::prelude::*;
use vstd::hash_map::StringHashMap;

use crate::syntax::{syntax_nodes, syntax_nodes_spec};
use crate::text::{contains, is_lit, chars_of, find_in, lines, split_lines, string_from, trim, trim_bounds};

verus! {

/// Where a symbol occurs: file, 1-based line, 0-based column, and the trimmed
/// source line.
#[derive(Debug)]
pub struct SymbolRef {
    pub path: String,
    pub line: u32,
    pub col: u32,
    pub context: String,
}

#[verifier::ext_equal]
pub struct SymbolRefView {
    pub path: Seq<char>,
    pub line: u32,
    pub col: u32,
    pub context: Seq<char>,
}

impl View for SymbolRef {
    type V = SymbolRefView;

    open spec fn view(&self) -> SymbolRefView {
        SymbolRefView { path: self.path@, line: self.line, col: self.col, context: self.context@ }
    }
}

impl Clone for SymbolRef {
    fn clone(&self) -> (r: Self)
        ensures
            r == *self,
    {
        SymbolRef {
            path: self.path.clone(),
            line: self.line,
            col: self.col,
            context: self.context.clone(),
        }
    }
}

pub open spec fn refs_view(v: Seq<SymbolRef>) -> Seq<SymbolRefView> {
    v.map_values(|r: SymbolRef| r@)
}

/// What the index holds for one name.
#[derive(Debug)]
pub struct Lookup {
    pub declarations: Vec<SymbolRef>,
    pub references: Vec<SymbolRef>,
}

/// Lists of symbol occurrences by name, each list in the order of insertion.
pub struct SymbolTable {
    slots: StringHashMap<usize>,
    lists: Vec<Vec<SymbolRef>>,
}

impl View for SymbolTable {
    type V = Map<Seq<char>, Seq<SymbolRefView>>;

    closed spec fn view(&self) -> Map<Seq<char>, Seq<SymbolRefView>> {
        self.slots@.map_values(|i: usize| refs_view(self.lists@[i as int]@))
    }
}

impl SymbolTable {
    /// Each name has a list of its own.
    #[verifier::type_invariant]
    spec fn slots_valid(self) -> bool {
        &&& forall|k: Seq<char>| #[trigger]
            self.slots@.contains_key(k) ==> self.slots@[k] < self.lists@.len()
        &&& forall|k1: Seq<char>, k2: Seq<char>|
            #[trigger] self.slots@.contains_key(k1) && #[trigger] self.slots@.contains_key(k2)
                && k1 != k2 ==> self.slots@[k1] != self.slots@[k2]
    }

    pub fn new() -> (r: Self)
        ensures
            r@ == Map::<Seq<char>, Seq<SymbolRefView>>::empty(),
    {
        let r = SymbolTable { slots: StringHashMap::new(), lists: Vec::new() };
        assert(r@ =~= Map::<Seq<char>, Seq<SymbolRefView>>::empty());
        r
    }

    /// The occurrences listed under `name`, none where it has none.
    pub fn get(&self, name: &str) -> (r: Vec<SymbolRef>)
        ensures
            refs_view(r@) == (if self@.contains_key(name@) {
                self@[name@]
            } else {
                Seq::<SymbolRefView>::empty()
            }),
    {
        proof {
            use_type_invariant(self);
        }
        match self.slots.get(name) {
            Some(i) => {
                let r = self.lists[*i].clone();
                assert(refs_view(r@) =~= refs_view(self.lists@[*i as int]@));
                r
            },
            None => {
                let r = Vec::new();
                assert(refs_view(r@) =~= Seq::<SymbolRefView>::empty());
                r
            },
        }
    }

    /// Adds `sym` at the end of the list of `name`.
    pub fn push(&mut self, name: &str, sym: SymbolRef)
        ensures
            final(self)@ == old(self)@.insert(
                name@,
                (if old(self)@.contains_key(name@) {
                    old(self)@[name@]
                } else {
                    Seq::<SymbolRefView>::empty()
                }).push(sym@),
            ),
    {
        proof {
            use_type_invariant(&*self);
        }
        let ghost sv = sym@;
        let mut taken = SymbolTable::new();
        std::mem::swap(&mut taken, self);
        let SymbolTable { mut slots, mut lists } = taken;
        let ghost slots0 = slots@;
        let ghost lists0 = lists@;
        match slots.get(name) {
            Some(i) => {
                let i = *i;
                let mut l: Vec<SymbolRef> = Vec::new();
                lists.set_and_swap(i, &mut l);
                l.push(sym);
                lists.set_and_swap(i, &mut l);
                assert(refs_view(lists@[i as int]@) =~= refs_view(lists0[i as int]@).push(sv));
                *self = SymbolTable { slots, lists };
            },
            None => {
                let i = lists.len();
                let mut l: Vec<SymbolRef> = Vec::new();
                l.push(sym);
                lists.push(l);
                slots.insert(name.to_string(), i);
                assert(refs_view(lists@[i as int]@) =~= seq![sv]);
                *self = SymbolTable { slots, lists };
            },
        }
        assert(self@ =~= old(self)@.insert(
            name@,
            (if old(self)@.contains_key(name@) {
                old(self)@[name@]
            } else {
                Seq::<SymbolRefView>::empty()
            }).push(sv),
        ));
    }
}

/// Declarations and references, each by name.
#[verifier::ext_equal]
pub struct SymbolIndexView {
    pub decls: Map<Seq<char>, Seq<SymbolRefView>>,
    pub refs: Map<Seq<char>, Seq<SymbolRefView>>,
}

/// Declarations and references of identifiers, by name.
pub struct SymbolIndex {
    decls: SymbolTable,
    refs: SymbolTable,
}

impl View for SymbolIndex {
    type V = SymbolIndexView;

    closed spec fn view(&self) -> SymbolIndexView {
        SymbolIndexView { decls: self.decls@, refs: self.refs@ }
    }
}

/// The list of `name` in `m`, empty where it has none.
pub open spec fn listed(m: Map<Seq<char>, Seq<SymbolRefView>>, name: Seq<char>) -> Seq<SymbolRefView> {
    if m.contains_key(name) {
        m[name]
    } else {
        Seq::<SymbolRefView>::empty()
    }
}

impl SymbolIndex {
    /// An index with no symbols.
    pub fn new() -> (r: Self)
        ensures
            r@.decls == Map::<Seq<char>, Seq<SymbolRefView>>::empty(),
            r@.refs == Map::<Seq<char>, Seq<SymbolRefView>>::empty(),
    {
        SymbolIndex { decls: SymbolTable::new(), refs: SymbolTable::new() }
    }

    /// Declarations and references of `name`, in the order they were found;
    /// empty for an unknown name.
    pub fn lookup(&self, name: &str) -> (r: Lookup)
        ensures
            refs_view(r.declarations@) == listed(self@.decls, name@),
            refs_view(r.references@) == listed(self@.refs, name@),
    {
        Lookup { declarations: self.decls.get(name), references: self.refs.get(name) }
    }

    /// Records an occurrence of `name`, as a declaration or as a reference.
    pub fn record(&mut self, name: &str, sym: SymbolRef, is_decl: bool)
        ensures
            is_decl ==> final(self)@.decls == old(self)@.decls.insert(
                name@,
                listed(old(self)@.decls, name@).push(sym@),
            ) && final(self)@.refs == old(self)@.refs,
            !is_decl ==> final(self)@.refs == old(self)@.refs.insert(
                name@,
                listed(old(self)@.refs, name@).push(sym@),
            ) && final(self)@.decls == old(self)@.decls,
    {
        if is_decl {
            self.decls.push(name, sym);
        } else {
            self.refs.push(name, sym);
        }
    }
}


/// A grammar that the index can parse.
#[derive(Debug, Clone, Copy, PartialEq, Eq, Structural)]
pub enum SourceLanguage {
    Java,
    Kotlin,
    Go,
    Python,
    JavaScript,
    TypeScript,
    Tsx,
}

/// The text after the last `'.'` of `path`, or all of it where it has none.
pub open spec fn extension(path: Seq<char>) -> Seq<char>
    decreases path.len(),
{
    if path.len() == 0 {
        path
    } else if path.last() == '.' {
        seq![]
    } else {
        extension(path.drop_last()).push(path.last())
    }
}

/// What `str::to_lowercase` makes of `s`.
pub uninterp spec fn lowercase(s: Seq<char>) -> Seq<char>;

/// `str::to_lowercase`; its result is named, and nothing more is claimed.
#[verifier::external_body]
fn to_lowercase(s: &str) -> (r: String)
    ensures
        r@ == lowercase(s@),
{
    s.to_lowercase()
}

/// The grammar for a lower-case file extension.
pub open spec fn language_of(ext: Seq<char>) -> Option<SourceLanguage> {
    if ext == "java"@ {
        Some(SourceLanguage::Java)
    } else if ext == "kt"@ || ext == "kts"@ {
        Some(SourceLanguage::Kotlin)
    } else if ext == "go"@ {
        Some(SourceLanguage::Go)
    } else if ext == "py"@ {
        Some(SourceLanguage::Python)
    } else if ext == "js"@ || ext == "jsx"@ || ext == "mjs"@ {
        Some(SourceLanguage::JavaScript)
    } else if ext == "ts"@ {
        Some(SourceLanguage::TypeScript)
    } else if ext == "tsx"@ {
        Some(SourceLanguage::Tsx)
    } else {
        None
    }
}

/// The grammar of a file, by the lower-cased text after the last `'.'` of its
/// path; `None` for files that are not indexed.
pub fn language_for(path: &str) -> (r: Option<SourceLanguage>)
    ensures
        r == language_of(lowercase(extension(path@))),
{
    let cs = chars_of(path);
    let s = cs.as_slice();
    let mut k = s.len();
    assert(s@.take(k as int) =~= s@);
    while k > 0 && s[k - 1] != '.'
        invariant
            k <= s@.len(),
            extension(s@) == extension(s@.take(k as int)) + s@.skip(k as int),
        decreases k,
    {
        assert(s@.take(k as int).drop_last() =~= s@.take(k - 1));
        assert(s@.skip(k - 1) =~= seq![s@[k - 1]] + s@.skip(k as int));
        k = k - 1;
    }
    if k > 0 {
        assert(s@.take(k as int).last() == '.');
    }
    assert(extension(s@.take(k as int)) =~= Seq::<char>::empty());
    let ext = &s[k..s.len()];
    assert(ext@ =~= extension(path@));
    let ext_string = string_from(ext);
    let lower = to_lowercase(ext_string.as_str());
    let lc = chars_of(lower.as_str());
    let l = lc.as_slice();
    if is_lit(l, "java") {
        Some(SourceLanguage::Java)
    } else if is_lit(l, "kt") || is_lit(l, "kts") {
        Some(SourceLanguage::Kotlin)
    } else if is_lit(l, "go") {
        Some(SourceLanguage::Go)
    } else if is_lit(l, "py") {
        Some(SourceLanguage::Python)
    } else if is_lit(l, "js") || is_lit(l, "jsx") || is_lit(l, "mjs") {
        Some(SourceLanguage::JavaScript)
    } else if is_lit(l, "ts") {
        Some(SourceLanguage::TypeScript)
    } else if is_lit(l, "tsx") {
        Some(SourceLanguage::Tsx)
    } else {
        None
    }
}

/// Node kinds that name something, across the supported grammars.
pub open spec fn identifier_kind(kind: Seq<char>) -> bool {
    ||| kind == "identifier"@
    ||| kind == "simple_identifier"@
    ||| kind == "type_identifier"@
    ||| kind == "field_identifier"@
    ||| kind == "property_identifier"@
    ||| kind == "shorthand_property_identifier"@
}

pub fn is_identifier_kind(kind: &str) -> (r: bool)
    ensures
        r == identifier_kind(kind@),
{
    let cs = chars_of(kind);
    let k = cs.as_slice();
    is_lit(k, "identifier") || is_lit(k, "simple_identifier") || is_lit(k, "type_identifier")
        || is_lit(k, "field_identifier") || is_lit(k, "property_identifier") || is_lit(
        k,
        "shorthand_property_identifier",
    )
}

/// Which nodes the index records: a node adds a symbol exactly where it
/// has a text and its kind is one of `identifier`, `simple_identifier`,
/// `type_identifier`, `field_identifier`, `property_identifier` and
/// `shorthand_property_identifier`; the symbol's name is that text, it
/// stands at the node's line and column in the file `path` with the trimmed
/// text of that line as context, and it declares the name exactly where the
/// node fills the `name` field of a parent whose kind holds `declaration`,
/// `definition` or `declarator`, or is `type_spec`.
pub proof fn law_recorded_node_kinds(path: Seq<char>, lines: Seq<Seq<char>>, node: SyntaxNodeView)
    ensures
        node_symbol(path, lines, node) is Some <==> node.text is Some && (node.kind == "identifier"@
            || node.kind == "simple_identifier"@ || node.kind == "type_identifier"@ || node.kind
            == "field_identifier"@ || node.kind == "property_identifier"@ || node.kind
            == "shorthand_property_identifier"@),
        node_symbol(path, lines, node) matches Some((name, sym, _)) ==> name == node.text->0
            && sym.path == path && sym.line == line_of_row(node.row) && sym.col == node.column as u32,
        node_symbol(path, lines, node) matches Some((_, sym, _)) ==> sym.context == if node.row
            < lines.len() {
            trim(lines[node.row as int])
        } else {
            seq![]
        },
        node_symbol(path, lines, node) matches Some((_, _, is_decl)) ==> (is_decl <==> (node.names_parent
            && (node.parent_kind matches Some(pk) && (contains(pk, "declaration"@) || contains(
            pk,
            "definition"@,
        ) || contains(pk, "declarator"@) || pk == "type_spec"@)))),
{
}

/// Node kinds whose `name` field declares that name: declarations,
/// definitions, declarators and Go's `type_spec`.
pub open spec fn declaration_kind(kind: Seq<char>) -> bool {
    ||| contains(kind, "declaration"@)
    ||| contains(kind, "definition"@)
    ||| contains(kind, "declarator"@)
    ||| kind == "type_spec"@
}

pub fn is_declaration_kind(kind: &str) -> (r: bool)
    ensures
        r == declaration_kind(kind@),
{
    let cs = chars_of(kind);
    let k = cs.as_slice();
    find_in(k, "declaration").is_some() || find_in(k, "definition").is_some() || find_in(
        k,
        "declarator",
    ).is_some() || is_lit(k, "type_spec")
}

/// What the index reads of a syntax node: its kind, its text (where it is
/// valid UTF-8), its start row and column, its parent's kind, and whether it
/// is the node in its parent's `name` field.
#[derive(Debug)]
pub struct SyntaxNode {
    pub kind: String,
    pub text: Option<String>,
    pub row: usize,
    pub column: usize,
    pub parent_kind: Option<String>,
    pub names_parent: bool,
}

/// A syntax node as plain values.
#[verifier::ext_equal]
pub struct SyntaxNodeView {
    pub kind: Seq<char>,
    pub text: Option<Seq<char>>,
    pub row: usize,
    pub column: usize,
    pub parent_kind: Option<Seq<char>>,
    pub names_parent: bool,
}

impl View for SyntaxNode {
    type V = SyntaxNodeView;

    open spec fn view(&self) -> SyntaxNodeView {
        SyntaxNodeView {
            kind: self.kind@,
            text: match self.text {
                Some(t) => Some(t@),
                None => None,
            },
            row: self.row,
            column: self.column,
            parent_kind: match self.parent_kind {
                Some(k) => Some(k@),
                None => None,
            },
            names_parent: self.names_parent,
        }
    }
}

pub open spec fn nodes_view(v: Seq<SyntaxNode>) -> Seq<SyntaxNodeView> {
    v.map_values(|n: SyntaxNode| n@)
}

/// The 1-based line of a 0-based row, as a `u32` (the row is cut to 32
/// bits, and the line wraps to 0 past the largest `u32`).
pub open spec fn line_of_row(row: usize) -> u32 {
    if row as u32 == u32::MAX {
        0
    } else {
        (row as u32 + 1) as u32
    }
}

/// The symbol that `node` of the file `path` (whose lines are `lines`) adds to
/// the index: its name, where it occurs, and whether it declares the name.
/// Only identifier nodes with a text add one; a node declares its name
/// where it fills the `name` field of a declaration-like parent.
pub open spec fn node_symbol(
    path: Seq<char>,
    lines: Seq<Seq<char>>,
    node: SyntaxNodeView,
) -> Option<(Seq<char>, SymbolRefView, bool)> {
    match node.text {
        Some(t) => if identifier_kind(node.kind) {
            Some(
                (
                    t,
                    SymbolRefView {
                        path,
                        line: line_of_row(node.row),
                        col: node.column as u32,
                        context: if node.row < lines.len() {
                            trim(lines[node.row as int])
                        } else {
                            seq![]
                        },
                    },
                    match node.parent_kind {
                        Some(pk) => declaration_kind(pk) && node.names_parent,
                        None => false,
                    },
                ),
            )
        } else {
            None
        },
        None => None,
    }
}

/// The index after recording `sym`, where there is one.
pub open spec fn record_symbol(
    v: SymbolIndexView,
    sym: Option<(Seq<char>, SymbolRefView, bool)>,
) -> SymbolIndexView {
    match sym {
        Some((name, r, is_decl)) => if is_decl {
            SymbolIndexView { decls: v.decls.insert(name, listed(v.decls, name).push(r)), refs: v.refs }
        } else {
            SymbolIndexView { decls: v.decls, refs: v.refs.insert(name, listed(v.refs, name).push(r)) }
        },
        None => v,
    }
}

/// The index after visiting `nodes` in order.
pub open spec fn visit_all(
    v: SymbolIndexView,
    path: Seq<char>,
    lines: Seq<Seq<char>>,
    nodes: Seq<SyntaxNodeView>,
) -> SymbolIndexView
    decreases nodes.len(),
{
    if nodes.len() == 0 {
        v
    } else {
        record_symbol(visit_all(v, path, lines, nodes.drop_last()), node_symbol(path, lines, nodes.last()))
    }
}

/// The index after the file `path` with text `source` is parsed with the
/// grammar `lang` and its identifier nodes are visited in preorder, a node
/// naming its parent where it is the parent's child in the `name` field;
/// unchanged where the parser gives no tree.
pub open spec fn index_file_spec(
    v: SymbolIndexView,
    path: Seq<char>,
    source: Seq<char>,
    lang: SourceLanguage,
) -> SymbolIndexView {
    match syntax_nodes_spec(lang, source, "name"@) {
        Some(nodes) => visit_all(v, path, lines(source), nodes),
        None => v,
    }
}

/// The index after each file of `files` whose path names a supported
/// grammar has been indexed, in order; the other files are skipped.
pub open spec fn index_files(v: SymbolIndexView, files: Seq<(String, String)>) -> SymbolIndexView
    decreases files.len(),
{
    if files.len() == 0 {
        v
    } else {
        let prev = index_files(v, files.drop_last());
        let (path, source) = files.last();
        match language_of(lowercase(extension(path@))) {
            Some(lang) => index_file_spec(prev, path@, source@, lang),
            None => prev,
        }
    }
}

/// Whether the path of `file` names a supported grammar.
pub open spec fn has_grammar(file: (String, String)) -> bool {
    language_of(lowercase(extension(file.0@))) is Some
}

/// Files whose path names no supported grammar add nothing: indexing all
/// of `files` gives the index that indexing only the others gives.
pub proof fn law_build_skips_unsupported(v: SymbolIndexView, files: Seq<(String, String)>)
    ensures
        index_files(v, files) == index_files(v, files.filter(|f: (String, String)| has_grammar(f))),
    decreases files.len(),
{
    reveal(Seq::filter);
    let pred = |f: (String, String)| has_grammar(f);
    if files.len() > 0 {
        law_build_skips_unsupported(v, files.drop_last());
        let kept = files.filter(pred);
        if pred(files.last()) {
            assert(kept.drop_last() =~= files.drop_last().filter(pred));
            assert(kept.last() == files.last());
        }
    }
}

/// The declarations (`is_decl`) or the references of an index.
pub open spec fn entries(v: SymbolIndexView, is_decl: bool) -> Map<Seq<char>, Seq<SymbolRefView>> {
    if is_decl {
        v.decls
    } else {
        v.refs
    }
}

/// Some node of `nodes` adds `sym` under `name`, as a declaration or not.
pub open spec fn nodes_give(
    path: Seq<char>,
    lines: Seq<Seq<char>>,
    nodes: Seq<SyntaxNodeView>,
    name: Seq<char>,
    sym: SymbolRefView,
    is_decl: bool,
) -> bool {
    exists|j: int| 0 <= j < nodes.len() && #[trigger] node_symbol(path, lines, nodes[j]) == Some((name, sym, is_decl))
}

/// An identifier node of the syntax tree of `file`, a path with a grammar
/// and its text, adds `sym` under `name`, as a declaration or not.
pub open spec fn file_gives(file: (String, String), name: Seq<char>, sym: SymbolRefView, is_decl: bool) -> bool {
    match language_of(lowercase(extension(file.0@))) {
        Some(lang) => match syntax_nodes_spec(lang, file.1@, "name"@) {
            Some(nodes) => nodes_give(file.0@, lines(file.1@), nodes, name, sym, is_decl),
            None => false,
        },
        None => false,
    }
}

/// Some file of `files` adds `sym` under `name`, as a declaration or not.
pub open spec fn files_give(files: Seq<(String, String)>, name: Seq<char>, sym: SymbolRefView, is_decl: bool) -> bool {
    exists|i: int| 0 <= i < files.len() && #[trigger] file_gives(files[i], name, sym, is_decl)
}

proof fn lemma_visit_all_from(
    v: SymbolIndexView,
    path: Seq<char>,
    lines: Seq<Seq<char>>,
    nodes: Seq<SyntaxNodeView>,
    name: Seq<char>,
    is_decl: bool,
    k: int,
)
    requires
        0 <= k < listed(entries(visit_all(v, path, lines, nodes), is_decl), name).len(),
    ensures
        ({
            let sym = listed(entries(visit_all(v, path, lines, nodes), is_decl), name)[k];
            ||| k < listed(entries(v, is_decl), name).len() && sym == listed(entries(v, is_decl), name)[k]
            ||| nodes_give(path, lines, nodes, name, sym, is_decl)
        }),
    decreases nodes.len(),
{
    if nodes.len() > 0 {
        let a = nodes.drop_last();
        let prev = visit_all(v, path, lines, a);
        let ns = node_symbol(path, lines, nodes.last());
        let now = visit_all(v, path, lines, nodes);
        assert(now == record_symbol(prev, ns));
        let sym = listed(entries(now, is_decl), name)[k];
        let before = listed(entries(prev, is_decl), name);
        if k < before.len() {
            assert(sym == before[k]);
            lemma_visit_all_from(v, path, lines, a, name, is_decl, k);
            if nodes_give(path, lines, a, name, sym, is_decl) {
                let j = choose|j: int| 0 <= j < a.len() && #[trigger] node_symbol(path, lines, a[j]) == Some((name, sym, is_decl));
                assert(nodes[j] == a[j]);
            }
        } else {
            assert(ns == Some((name, sym, is_decl)));
            assert(node_symbol(path, lines, nodes[nodes.len() - 1]) == Some((name, sym, is_decl)));
        }
    }
}

proof fn lemma_index_files_from(files: Seq<(String, String)>, name: Seq<char>, is_decl: bool, k: int)
    requires
        0 <= k < listed(entries(index_files(SymbolIndexView { decls: Map::empty(), refs: Map::empty() }, files), is_decl), name).len(),
    ensures
        files_give(
            files,
            name,
            listed(entries(index_files(SymbolIndexView { decls: Map::empty(), refs: Map::empty() }, files), is_decl), name)[k],
            is_decl,
        ),
    decreases files.len(),
{
    let empty = SymbolIndexView { decls: Map::empty(), refs: Map::empty() };
    if files.len() > 0 {
        let a = files.drop_last();
        let prev = index_files(empty, a);
        let now = index_files(empty, files);
        let sym = listed(entries(now, is_decl), name)[k];
        let (path, source) = files.last();
        match language_of(lowercase(extension(path@))) {
            Some(lang) => {
                match syntax_nodes_spec(lang, source@, "name"@) {
                    Some(nodes) => {
                        assert(now == visit_all(prev, path@, lines(source@), nodes));
                        lemma_visit_all_from(prev, path@, lines(source@), nodes, name, is_decl, k);
                        if nodes_give(path@, lines(source@), nodes, name, sym, is_decl) {
                            assert(file_gives(files[files.len() - 1], name, sym, is_decl));
                        } else {
                            lemma_index_files_from(a, name, is_decl, k);
                            let i = choose|i: int| 0 <= i < a.len() && #[trigger] file_gives(a[i], name, sym, is_decl);
                            assert(files[i] == a[i]);
                        }
                    },
                    None => {
                        lemma_index_files_from(a, name, is_decl, k);
                        let i = choose|i: int| 0 <= i < a.len() && #[trigger] file_gives(a[i], name, sym, is_decl);
                        assert(files[i] == a[i]);
                    },
                }
            },
            None => {
                lemma_index_files_from(a, name, is_decl, k);
                let i = choose|i: int| 0 <= i < a.len() && #[trigger] file_gives(a[i], name, sym, is_decl);
                assert(files[i] == a[i]);
            },
        }
    }
}

/// Every symbol that the index built from `files` lists under `name` comes
/// from an identifier node of one of those files that has a grammar: its
/// path is that file's, its line, column and context are those of the node
/// in that file's text, and it is listed as a declaration exactly where the
/// node declares the name.
pub proof fn law_symbols_come_from_files(files: Seq<(String, String)>, name: Seq<char>, is_decl: bool, k: int)
    requires
        0 <= k < listed(entries(index_files(SymbolIndexView { decls: Map::empty(), refs: Map::empty() }, files), is_decl), name).len(),
    ensures
        files_give(
            files,
            name,
            listed(entries(index_files(SymbolIndexView { decls: Map::empty(), refs: Map::empty() }, files), is_decl), name)[k],
            is_decl,
        ),
{
    lemma_index_files_from(files, name, is_decl, k);
}

/// What is recorded is looked up: after a symbol is recorded under a name,
/// the name's declarations (for a declaration) or references (otherwise)
/// are the earlier ones followed by it, the other list of the name is
/// unchanged, and every other name keeps both lists.
pub proof fn law_lookup_after_record(
    v: SymbolIndexView,
    name: Seq<char>,
    other: Seq<char>,
    sym: SymbolRefView,
    is_decl: bool,
)
    ensures
        ({
            let w = record_symbol(v, Some((name, sym, is_decl)));
            &&& is_decl ==> listed(w.decls, name) == listed(v.decls, name).push(sym) && listed(w.refs, name)
                == listed(v.refs, name)
            &&& !is_decl ==> listed(w.refs, name) == listed(v.refs, name).push(sym) && listed(w.decls, name)
                == listed(v.decls, name)
            &&& other != name ==> listed(w.decls, other) == listed(v.decls, other) && listed(w.refs, other)
                == listed(v.refs, other)
        }),
{
}

impl SymbolIndex {
    /// Records the symbol that `node` adds, if any.
    pub fn visit(&mut self, path: &str, lines: &Vec<String>, node: &SyntaxNode)
        ensures
            final(self)@ == record_symbol(
                old(self)@,
                node_symbol(path@, lines@.map_values(|l: String| l@), node@),
            ),
    {
        let name = match &node.text {
            Some(t) => t,
            None => {
                return;
            },
        };
        if !is_identifier_kind(node.kind.as_str()) {
            return;
        }
        let context = if node.row < lines.len() {
            let cs = chars_of(lines[node.row].as_str());
            let l = cs.as_slice();
            let (a, b) = trim_bounds(l);
            string_from(&l[a..b])
        } else {
            String::new()
        };
        let is_decl = match &node.parent_kind {
            Some(pk) => is_declaration_kind(pk.as_str()) && node.names_parent,
            None => false,
        };
        let row = node.row as u32;
        let sym = SymbolRef { path: path.to_string(), line: row.wrapping_add(1), col: node.column as u32, context };
        self.record(name.as_str(), sym, is_decl);
    }

    /// Records the symbols of `nodes`, in order.
    pub fn index_nodes(&mut self, path: &str, lines: &Vec<String>, nodes: &Vec<SyntaxNode>)
        ensures
            final(self)@ == visit_all(old(self)@, path@, lines@.map_values(|l: String| l@), nodes_view(nodes@)),
    {
        let ghost lv = lines@.map_values(|l: String| l@);
        let ghost start = self@;
        let n = nodes.len();
        let mut i: usize = 0;
        assert(nodes_view(nodes@).take(0) =~= Seq::<SyntaxNodeView>::empty());
        while i < n
            invariant
                n == nodes@.len(),
                i <= n,
                lv == lines@.map_values(|l: String| l@),
                self@ == visit_all(start, path@, lv, nodes_view(nodes@).take(i as int)),
            decreases n - i,
        {
            self.visit(path, lines, &nodes[i]);
            assert(nodes_view(nodes@).take(i + 1).drop_last() =~= nodes_view(nodes@).take(i as int));
            assert(nodes_view(nodes@).take(i + 1).last() == nodes@[i as int]@);
            i = i + 1;
        }
        assert(nodes_view(nodes@).take(n as int) =~= nodes_view(nodes@));
    }

    /// Parses `source`, the text of the file `path`, with the grammar `lang`,
    /// and records the identifiers of its syntax tree in preorder. Nothing is
    /// recorded where the parser refuses the grammar or gives no tree.
    pub fn index_file(&mut self, path: &str, source: &str, lang: SourceLanguage)
        ensures
            final(self)@ == index_file_spec(old(self)@, path@, source@, lang),
    {
        match syntax_nodes(lang, source, "name") {
            Some(nodes) => {
                let source_lines = split_lines(source);
                self.index_nodes(path, &source_lines, &nodes);
            },
            None => {},
        }
    }

    /// Indexes the files `files`, each given by its repository path and its
    /// text; files whose path names no supported grammar are skipped.
    pub fn build(files: &Vec<(String, String)>) -> (r: SymbolIndex)
        ensures
            r@ == index_files(SymbolIndexView { decls: Map::empty(), refs: Map::empty() }, files@),
    {
        let ghost empty = SymbolIndexView { decls: Map::empty(), refs: Map::empty() };
        let mut idx = SymbolIndex::new();
        assert(idx@ =~= empty);
        let n = files.len();
        let mut i: usize = 0;
        assert(files@.take(0).len() == 0);
        while i < n
            invariant
                n == files@.len(),
                i <= n,
                idx@ == index_files(empty, files@.take(i as int)),
            decreases n - i,
        {
            let (path, source) = &files[i];
            assert(files@.take(i + 1).drop_last() =~= files@.take(i as int));
            assert(files@.take(i + 1).last() == files@[i as int]);
            match language_for(path.as_str()) {
                Some(lang) => {
                    idx.index_file(path.as_str(), source.as_str(), lang);
                },
                None => {},
            }
            i = i + 1;
        }
        assert(files@.take(n as int) =~= files@);
        idx
    }
}

} // verus!
