//! Normalized source facts: symbols (nodes) and relationships (edges).
use vstd::prelude::*;

use crate::text::{chars_of, decimal, decimal_chars, string_from_chars, append_chars};

verus! {

/// Kind of an indexed symbol.
#[derive(Debug, Clone, Copy, PartialEq, Eq, Structural)]
pub enum NodeKind {
    Function,
    Class,
    Method,
    Interface,
    TypeAlias,
    Enum,
    Variable,
    Struct,
    Trait,
    Module,
    Property,
    Namespace,
    Constant,
    Heading,
    Endpoint,
}

/// Kind of a relationship between two symbols.
#[derive(Debug, Clone, Copy, PartialEq, Eq, Structural)]
pub enum EdgeKind {
    Contains,
    Calls,
    References,
    Imports,
    Extends,
    Implements,
}

/// Source language of an indexed file.
#[derive(Debug, Clone, Copy, PartialEq, Eq, Structural)]
pub enum Language {
    TypeScript,
    Tsx,
    JavaScript,
    Jsx,
    Python,
    Rust,
    Go,
    Java,
    C,
    Cpp,
    CSharp,
    Ruby,
    Php,
    Markdown,
}

pub open spec fn node_kind_name(kind: NodeKind) -> Seq<char> {
    match kind {
        NodeKind::Function => "function"@,
        NodeKind::Class => "class"@,
        NodeKind::Method => "method"@,
        NodeKind::Interface => "interface"@,
        NodeKind::TypeAlias => "type_alias"@,
        NodeKind::Enum => "enum"@,
        NodeKind::Variable => "variable"@,
        NodeKind::Struct => "struct"@,
        NodeKind::Trait => "trait"@,
        NodeKind::Module => "module"@,
        NodeKind::Property => "property"@,
        NodeKind::Namespace => "namespace"@,
        NodeKind::Constant => "constant"@,
        NodeKind::Heading => "heading"@,
        NodeKind::Endpoint => "endpoint"@,
    }
}

pub open spec fn edge_kind_name(kind: EdgeKind) -> Seq<char> {
    match kind {
        EdgeKind::Contains => "contains"@,
        EdgeKind::Calls => "calls"@,
        EdgeKind::References => "references"@,
        EdgeKind::Imports => "imports"@,
        EdgeKind::Extends => "extends"@,
        EdgeKind::Implements => "implements"@,
    }
}

pub open spec fn language_name(language: Language) -> Seq<char> {
    match language {
        Language::TypeScript => "typescript"@,
        Language::Tsx => "tsx"@,
        Language::JavaScript => "javascript"@,
        Language::Jsx => "jsx"@,
        Language::Python => "python"@,
        Language::Rust => "rust"@,
        Language::Go => "go"@,
        Language::Java => "java"@,
        Language::C => "c"@,
        Language::Cpp => "cpp"@,
        Language::CSharp => "csharp"@,
        Language::Ruby => "ruby"@,
        Language::Php => "php"@,
        Language::Markdown => "markdown"@,
    }
}

impl NodeKind {
    /// The serialized name of the kind.
    pub fn as_str(self) -> (r: &'static str)
        ensures
            r@ == node_kind_name(self),
    {
        match self {
            NodeKind::Function => "function",
            NodeKind::Class => "class",
            NodeKind::Method => "method",
            NodeKind::Interface => "interface",
            NodeKind::TypeAlias => "type_alias",
            NodeKind::Enum => "enum",
            NodeKind::Variable => "variable",
            NodeKind::Struct => "struct",
            NodeKind::Trait => "trait",
            NodeKind::Module => "module",
            NodeKind::Property => "property",
            NodeKind::Namespace => "namespace",
            NodeKind::Constant => "constant",
            NodeKind::Heading => "heading",
            NodeKind::Endpoint => "endpoint",
        }
    }
}

/// The kind whose serialized name is `name`.
pub open spec fn node_kind_named(name: Seq<char>) -> Option<NodeKind> {
    if name == "function"@ {
        Some(NodeKind::Function)
    } else if name == "class"@ {
        Some(NodeKind::Class)
    } else if name == "method"@ {
        Some(NodeKind::Method)
    } else if name == "interface"@ {
        Some(NodeKind::Interface)
    } else if name == "type_alias"@ {
        Some(NodeKind::TypeAlias)
    } else if name == "enum"@ {
        Some(NodeKind::Enum)
    } else if name == "variable"@ {
        Some(NodeKind::Variable)
    } else if name == "struct"@ {
        Some(NodeKind::Struct)
    } else if name == "trait"@ {
        Some(NodeKind::Trait)
    } else if name == "module"@ {
        Some(NodeKind::Module)
    } else if name == "property"@ {
        Some(NodeKind::Property)
    } else if name == "namespace"@ {
        Some(NodeKind::Namespace)
    } else if name == "constant"@ {
        Some(NodeKind::Constant)
    } else if name == "heading"@ {
        Some(NodeKind::Heading)
    } else if name == "endpoint"@ {
        Some(NodeKind::Endpoint)
    } else {
        None
    }
}

impl NodeKind {
    /// The kind whose serialized name is exactly `name`.
    pub fn from_name(name: &str) -> (r: Option<NodeKind>)
        ensures
            r == node_kind_named(name@),
            match r {
                Some(k) => node_kind_name(k) == name@,
                None => forall|k: NodeKind| node_kind_name(k) != name@,
            },
    {
        let v = chars_of(name);
        if crate::text::chars_equal(v.as_slice(), chars_of("function").as_slice()) {
            Some(NodeKind::Function)
        } else if crate::text::chars_equal(v.as_slice(), chars_of("class").as_slice()) {
            Some(NodeKind::Class)
        } else if crate::text::chars_equal(v.as_slice(), chars_of("method").as_slice()) {
            Some(NodeKind::Method)
        } else if crate::text::chars_equal(v.as_slice(), chars_of("interface").as_slice()) {
            Some(NodeKind::Interface)
        } else if crate::text::chars_equal(v.as_slice(), chars_of("type_alias").as_slice()) {
            Some(NodeKind::TypeAlias)
        } else if crate::text::chars_equal(v.as_slice(), chars_of("enum").as_slice()) {
            Some(NodeKind::Enum)
        } else if crate::text::chars_equal(v.as_slice(), chars_of("variable").as_slice()) {
            Some(NodeKind::Variable)
        } else if crate::text::chars_equal(v.as_slice(), chars_of("struct").as_slice()) {
            Some(NodeKind::Struct)
        } else if crate::text::chars_equal(v.as_slice(), chars_of("trait").as_slice()) {
            Some(NodeKind::Trait)
        } else if crate::text::chars_equal(v.as_slice(), chars_of("module").as_slice()) {
            Some(NodeKind::Module)
        } else if crate::text::chars_equal(v.as_slice(), chars_of("property").as_slice()) {
            Some(NodeKind::Property)
        } else if crate::text::chars_equal(v.as_slice(), chars_of("namespace").as_slice()) {
            Some(NodeKind::Namespace)
        } else if crate::text::chars_equal(v.as_slice(), chars_of("constant").as_slice()) {
            Some(NodeKind::Constant)
        } else if crate::text::chars_equal(v.as_slice(), chars_of("heading").as_slice()) {
            Some(NodeKind::Heading)
        } else if crate::text::chars_equal(v.as_slice(), chars_of("endpoint").as_slice()) {
            Some(NodeKind::Endpoint)
        } else {
            None
        }
    }
}

impl EdgeKind {
    /// The serialized name of the kind.
    pub fn as_str(self) -> (r: &'static str)
        ensures
            r@ == edge_kind_name(self),
    {
        match self {
            EdgeKind::Contains => "contains",
            EdgeKind::Calls => "calls",
            EdgeKind::References => "references",
            EdgeKind::Imports => "imports",
            EdgeKind::Extends => "extends",
            EdgeKind::Implements => "implements",
        }
    }
}

impl Language {
    /// The serialized name of the language.
    pub fn as_str(self) -> (r: &'static str)
        ensures
            r@ == language_name(self),
    {
        match self {
            Language::TypeScript => "typescript",
            Language::Tsx => "tsx",
            Language::JavaScript => "javascript",
            Language::Jsx => "jsx",
            Language::Python => "python",
            Language::Rust => "rust",
            Language::Go => "go",
            Language::Java => "java",
            Language::C => "c",
            Language::Cpp => "cpp",
            Language::CSharp => "csharp",
            Language::Ruby => "ruby",
            Language::Php => "php",
            Language::Markdown => "markdown",
        }
    }
}

/// One indexed symbol with its source evidence.
#[derive(Debug, Clone, PartialEq, Eq)]
pub struct CodeNode {
    pub id: String,
    pub name: String,
    pub qualified_name: Option<String>,
    pub kind: NodeKind,
    pub file_path: String,
    pub start_line: u32,
    pub end_line: u32,
    pub start_column: u32,
    pub end_column: u32,
    pub language: Language,
    pub body: Option<String>,
    pub documentation: Option<String>,
    pub exported: Option<bool>,
}

/// One relationship occurrence; `metadata` holds distinct keys.
#[derive(Debug, Clone, PartialEq, Eq)]
pub struct CodeEdge {
    pub source: String,
    pub target: String,
    pub kind: EdgeKind,
    pub file_path: String,
    pub line: u32,
    pub target_name: Option<String>,
    pub metadata: Option<Vec<(String, String)>>,
}

/// The mathematical value of a [`CodeNode`].
pub struct NodeView {
    pub id: Seq<char>,
    pub name: Seq<char>,
    pub qualified_name: Option<Seq<char>>,
    pub kind: NodeKind,
    pub file_path: Seq<char>,
    pub start_line: u32,
    pub end_line: u32,
    pub start_column: u32,
    pub end_column: u32,
    pub language: Language,
    pub body: Option<Seq<char>>,
    pub documentation: Option<Seq<char>>,
    pub exported: Option<bool>,
}

/// The mathematical value of a [`CodeEdge`].
pub struct EdgeView {
    pub source: Seq<char>,
    pub target: Seq<char>,
    pub kind: EdgeKind,
    pub file_path: Seq<char>,
    pub line: u32,
    pub target_name: Option<Seq<char>>,
    pub metadata: Option<Seq<(Seq<char>, Seq<char>)>>,
}

pub open spec fn opt_view(o: Option<String>) -> Option<Seq<char>> {
    match o {
        Some(s) => Some(s@),
        None => None,
    }
}

pub open spec fn pairs_view(v: Seq<(String, String)>) -> Seq<(Seq<char>, Seq<char>)> {
    v.map_values(|p: (String, String)| (p.0@, p.1@))
}

impl View for CodeNode {
    type V = NodeView;

    open spec fn view(&self) -> NodeView {
        NodeView {
            id: self.id@,
            name: self.name@,
            qualified_name: opt_view(self.qualified_name),
            kind: self.kind,
            file_path: self.file_path@,
            start_line: self.start_line,
            end_line: self.end_line,
            start_column: self.start_column,
            end_column: self.end_column,
            language: self.language,
            body: opt_view(self.body),
            documentation: opt_view(self.documentation),
            exported: self.exported,
        }
    }
}

impl View for CodeEdge {
    type V = EdgeView;

    open spec fn view(&self) -> EdgeView {
        EdgeView {
            source: self.source@,
            target: self.target@,
            kind: self.kind,
            file_path: self.file_path@,
            line: self.line,
            target_name: opt_view(self.target_name),
            metadata: match self.metadata {
                Some(m) => Some(pairs_view(m@)),
                None => None,
            },
        }
    }
}

pub open spec fn nodes_view(v: Seq<CodeNode>) -> Seq<NodeView> {
    v.map_values(|n: CodeNode| n@)
}

pub open spec fn edges_view(v: Seq<CodeEdge>) -> Seq<EdgeView> {
    v.map_values(|e: CodeEdge| e@)
}

/// The texts of a list of strings.
pub open spec fn strings_view(v: Seq<String>) -> Seq<Seq<char>> {
    v.map_values(|s: String| s@)
}

/// Identifier of a symbol: `kind:file:name:line`.
pub open spec fn node_id(kind: NodeKind, file_path: Seq<char>, name: Seq<char>, line: u32) -> Seq<
    char,
> {
    node_kind_name(kind) + ":"@ + file_path + ":"@ + name + ":"@ + decimal(line as nat)
}

/// Builds the stable identifier `kind:file:name:line` of a symbol.
pub fn make_node_id(kind: NodeKind, file_path: &str, name: &str, line: u32) -> (r: String)
    ensures
        r@ == node_id(kind, file_path@, name@, line),
{
    let colon = chars_of(":");
    let mut v = chars_of(kind.as_str());
    append_chars(&mut v, colon.as_slice());
    append_chars(&mut v, chars_of(file_path).as_slice());
    append_chars(&mut v, colon.as_slice());
    append_chars(&mut v, chars_of(name).as_slice());
    append_chars(&mut v, colon.as_slice());
    append_chars(&mut v, decimal_chars(line as u64).as_slice());
    string_from_chars(v.as_slice())
}

/// Copies an optional string.
pub fn copy_opt_string(o: &Option<String>) -> (r: Option<String>)
    ensures
        opt_view(r) == opt_view(*o),
{
    match o {
        Some(s) => Some(s.clone()),
        None => None,
    }
}

/// Copies a list of strings.
pub fn copy_strings(v: &Vec<String>) -> (r: Vec<String>)
    ensures
        strings_view(r@) == strings_view(v@),
{
    let mut r: Vec<String> = Vec::new();
    let mut i: usize = 0;
    while i < v.len()
        invariant
            i <= v@.len(),
            strings_view(r@) == strings_view(v@).take(i as int),
        decreases v@.len() - i,
    {
        let ghost before = strings_view(r@);
        let s = v[i].clone();
        r.push(s);
        assert(strings_view(r@) =~= before.push(s@));
        assert(strings_view(v@).take(i + 1) =~= strings_view(v@).take(i as int).push(v@[i as int]@));
        i = i + 1;
    }
    assert(strings_view(v@).take(v@.len() as int) =~= strings_view(v@));
    r
}

impl CodeNode {
    /// A field-by-field copy of the node.
    pub fn copy(&self) -> (r: CodeNode)
        ensures
            r@ == self@,
    {
        CodeNode {
            id: self.id.clone(),
            name: self.name.clone(),
            qualified_name: copy_opt_string(&self.qualified_name),
            kind: self.kind,
            file_path: self.file_path.clone(),
            start_line: self.start_line,
            end_line: self.end_line,
            start_column: self.start_column,
            end_column: self.end_column,
            language: self.language,
            body: copy_opt_string(&self.body),
            documentation: copy_opt_string(&self.documentation),
            exported: self.exported,
        }
    }
}

impl CodeEdge {
    /// A field-by-field copy of the edge.
    pub fn clone_edge(&self) -> (r: CodeEdge)
        ensures
            r@ == self@,
    {
        let metadata = match &self.metadata {
            None => None,
            Some(m) => {
                let mut copy: Vec<(String, String)> = Vec::new();
                let mut i: usize = 0;
                while i < m.len()
                    invariant
                        i <= m@.len(),
                        pairs_view(copy@) == pairs_view(m@).take(i as int),
                    decreases m@.len() - i,
                {
                    let ghost before = pairs_view(copy@);
                    let pair = (m[i].0.clone(), m[i].1.clone());
                    copy.push(pair);
                    assert(pairs_view(copy@) =~= before.push((m@[i as int].0@, m@[i as int].1@)));
                    assert(pairs_view(m@).take(i + 1) =~= pairs_view(m@).take(i as int).push(
                        (m@[i as int].0@, m@[i as int].1@),
                    ));
                    i = i + 1;
                }
                assert(pairs_view(m@).take(m@.len() as int) =~= pairs_view(m@));
                Some(copy)
            },
        };
        CodeEdge {
            source: self.source.clone(),
            target: self.target.clone(),
            kind: self.kind,
            file_path: self.file_path.clone(),
            line: self.line,
            target_name: copy_opt_string(&self.target_name),
            metadata,
        }
    }
}

/// Value recorded under `key` in a metadata list (the first entry with that key).
pub open spec fn metadata_lookup(m: Seq<(Seq<char>, Seq<char>)>, key: Seq<char>) -> Option<
    Seq<char>,
>
    decreases m.len(),
{
    if m.len() == 0 {
        None
    } else if m[0].0 == key {
        Some(m[0].1)
    } else {
        metadata_lookup(m.drop_first(), key)
    }
}

/// Value recorded under `key` in an edge's metadata.
pub open spec fn edge_metadata(e: EdgeView, key: Seq<char>) -> Option<Seq<char>> {
    match e.metadata {
        Some(m) => metadata_lookup(m, key),
        None => None,
    }
}

impl CodeEdge {
    /// Value recorded under `key` in the edge's metadata.
    pub fn metadata_value(&self, key: &str) -> (r: Option<String>)
        ensures
            opt_view(r) == edge_metadata(self@, key@),
    {
        match &self.metadata {
            None => None,
            Some(m) => {
                let k = chars_of(key);
                let mut i: usize = 0;
                proof {
                    assert(pairs_view(m@).skip(0) =~= pairs_view(m@));
                }
                while i < m.len()
                    invariant
                        i <= m@.len(),
                        k@ == key@,
                        self@.metadata == Some(pairs_view(m@)),
                        metadata_lookup(pairs_view(m@), key@) == metadata_lookup(
                            pairs_view(m@).skip(i as int),
                            key@,
                        ),
                    decreases m@.len() - i,
                {
                    proof {
                        assert(pairs_view(m@).skip(i as int).drop_first() =~= pairs_view(
                            m@,
                        ).skip(i + 1));
                    }
                    let name = chars_of(m[i].0.as_str());
                    proof {
                        assert(pairs_view(m@).skip(i as int)[0] == (m@[i as int].0@, m@[i as int].1@));
                    }
                    if crate::text::chars_equal(name.as_slice(), k.as_slice()) {
                        let v = m[i].1.clone();
                        proof {
                            let sk = pairs_view(m@).skip(i as int);
                            assert(sk.len() > 0);
                            assert(sk[0].0 == key@);
                            assert(metadata_lookup(sk, key@) == Some(sk[0].1));
                            assert(sk[0].1 == v@);
                            assert(self@.metadata == Some(pairs_view(m@)));
                        }
                        return Some(v);
                    }
                    i = i + 1;
                }
                None
            },
        }
    }
}

/// Position of the first entry at or after `i` with key `key`, or -1.
pub open spec fn key_position(m: Seq<(Seq<char>, Seq<char>)>, key: Seq<char>, i: int) -> int
    decreases m.len() - i,
{
    if i < 0 || i >= m.len() {
        -1
    } else if m[i].0 == key {
        i
    } else {
        key_position(m, key, i + 1)
    }
}

/// `m` with `key` recorded as `value`: the entry replaced in place when the
/// key is there, else appended (`HashMap::insert` on distinct keys).
pub open spec fn metadata_set(m: Seq<(Seq<char>, Seq<char>)>, key: Seq<char>, value: Seq<char>) -> Seq<
    (Seq<char>, Seq<char>),
> {
    let p = key_position(m, key, 0);
    if p >= 0 {
        m.update(p, (key, value))
    } else {
        m.push((key, value))
    }
}

pub proof fn lemma_key_position_bounds(m: Seq<(Seq<char>, Seq<char>)>, key: Seq<char>, i: int)
    requires
        0 <= i,
    ensures
        key_position(m, key, i) == -1 || (i <= key_position(m, key, i) < m.len() && m[key_position(
            m,
            key,
            i,
        )].0 == key),
    decreases m.len() - i,
{
    if i < m.len() {
        lemma_key_position_bounds(m, key, i + 1);
    }
}

/// Records `key` as `value` in a metadata list.
pub fn set_metadata(m: &mut Vec<(String, String)>, key: String, value: String)
    ensures
        pairs_view(final(m)@) == metadata_set(pairs_view(old(m)@), key@, value@),
{
    let ghost before = pairs_view(m@);
    let k = chars_of(key.as_str());
    let mut i: usize = 0;
    while i < m.len() && !crate::text::chars_equal(chars_of(m[i].0.as_str()).as_slice(), k.as_slice())
        invariant
            i <= m@.len(),
            k@ == key@,
            before == pairs_view(m@),
            key_position(before, key@, 0) == key_position(before, key@, i as int),
        decreases m@.len() - i,
    {
        i = i + 1;
    }
    proof {
        lemma_key_position_bounds(before, key@, i as int);
    }
    if i < m.len() {
        m.set(i, (key, value));
        assert(pairs_view(m@) =~= before.update(i as int, (key@, value@)));
    } else {
        m.push((key, value));
        assert(pairs_view(m@) =~= before.push((key@, value@)));
    }
}

} // verus!
