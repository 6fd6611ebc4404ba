//! Concrete syntax trees of Python sources, as the rules read them: each
//! node with its kind, the field under which it stands in its parent, its
//! source text, where it starts, and its children in order.

use vstd::prelude::*;
use crate::text::string_is;

verus! {

broadcast use vstd::string::group_string_axioms;

/// A node of a concrete syntax tree.
#[derive(Debug)]
pub struct SyntaxNode {
    /// The grammar kind, e.g. `identifier` or `typed_parameter`.
    pub kind: String,
    /// The field name under which the node stands in its parent, if any.
    pub field: Option<String>,
    /// The source text the node spans.
    pub text: String,
    /// The row (from 0) and column (in bytes, from 0) where the node starts.
    pub start_row: usize,
    pub start_column: usize,
    pub children: Vec<SyntaxNode>,
}

/// The nodes that a sequence of references points to.
pub open spec fn nodes_of(v: Seq<&SyntaxNode>) -> Seq<SyntaxNode> {
    v.map_values(|n: &SyntaxNode| *n)
}

/// Whether `n` stands under the field `name`.
pub open spec fn has_field(n: SyntaxNode, name: Seq<char>) -> bool {
    match n.field {
        Some(f) => f@ == name,
        None => false,
    }
}

/// The index of the first node among `cs`, from `from` on, that stands
/// under the field `name`; -1 where there is none.
pub open spec fn field_index_from(cs: Seq<SyntaxNode>, name: Seq<char>, from: int) -> int
    decreases cs.len() - from,
{
    if from < 0 || from >= cs.len() {
        -1
    } else if has_field(cs[from], name) {
        from
    } else {
        field_index_from(cs, name, from + 1)
    }
}

/// The index of the first child of `n` under the field `name`; -1 where
/// there is none.
pub open spec fn field_index(n: SyntaxNode, name: Seq<char>) -> int {
    field_index_from(n.children@, name, 0)
}

/// The index of the first node among `cs`, from `from` on, of kind `kind`;
/// -1 where there is none.
pub open spec fn kind_index_from(cs: Seq<SyntaxNode>, kind: Seq<char>, from: int) -> int
    decreases cs.len() - from,
{
    if from < 0 || from >= cs.len() {
        -1
    } else if cs[from].kind@ == kind {
        from
    } else {
        kind_index_from(cs, kind, from + 1)
    }
}

pub proof fn lemma_kind_index_from_range(cs: Seq<SyntaxNode>, kind: Seq<char>, from: int)
    ensures
        kind_index_from(cs, kind, from) == -1 || (from <= kind_index_from(cs, kind, from)
            < cs.len() && cs[kind_index_from(cs, kind, from)].kind@ == kind),
    decreases cs.len() - from,
{
    if 0 <= from < cs.len() && cs[from].kind@ != kind {
        lemma_kind_index_from_range(cs, kind, from + 1);
    }
}

/// The index of the innermost node of kind `kind` among `nodes` (the last
/// one); -1 where there is none.
pub open spec fn last_kind_index(nodes: Seq<SyntaxNode>, kind: Seq<char>) -> int
    decreases nodes.len(),
{
    if nodes.len() == 0 {
        -1
    } else if nodes.last().kind@ == kind {
        nodes.len() - 1
    } else {
        last_kind_index(nodes.drop_last(), kind)
    }
}

pub proof fn lemma_last_kind_index_range(nodes: Seq<SyntaxNode>, kind: Seq<char>)
    ensures
        last_kind_index(nodes, kind) == -1 || (0 <= last_kind_index(nodes, kind) < nodes.len()
            && nodes[last_kind_index(nodes, kind)].kind@ == kind),
    decreases nodes.len(),
{
    if nodes.len() > 0 && nodes.last().kind@ != kind {
        lemma_last_kind_index_range(nodes.drop_last(), kind);
    }
}

/// The index of the innermost node of kind `kind` among `nodes`.
pub fn innermost_of_kind(nodes: &[&SyntaxNode], kind: &str) -> (r: Option<usize>)
    ensures
        match r {
            Some(i) => i == last_kind_index(nodes_of(nodes@), kind@) && i < nodes@.len(),
            None => last_kind_index(nodes_of(nodes@), kind@) == -1,
        },
{
    let ghost all = nodes_of(nodes@);
    let mut i: usize = nodes.len();
    assert(all.take(i as int) =~= all);
    while i > 0
        invariant
            i <= nodes@.len(),
            all == nodes_of(nodes@),
            last_kind_index(all, kind@) == last_kind_index(all.take(i as int), kind@),
        decreases i,
    {
        assert(all.take(i as int).drop_last() =~= all.take(i - 1));
        if nodes[i - 1].is_kind(kind) {
            return Some(i - 1);
        }
        i = i - 1;
    }
    None
}

impl SyntaxNode {
    /// Whether the node is of kind `kind`.
    pub fn is_kind(&self, kind: &str) -> (r: bool)
        ensures
            r == (self.kind@ == kind@),
    {
        string_is(&self.kind, kind)
    }

    /// Whether the node's text is `text`.
    pub fn has_text(&self, text: &str) -> (r: bool)
        ensures
            r == (self.text@ == text@),
    {
        string_is(&self.text, text)
    }

    /// The index of the first child under the field `name`.
    pub fn field_child_index(&self, name: &str) -> (r: Option<usize>)
        ensures
            match r {
                Some(i) => i == field_index(*self, name@) && i < self.children@.len(),
                None => field_index(*self, name@) == -1,
            },
    {
        let cs = &self.children;
        let mut i: usize = 0;
        while i < cs.len()
            invariant
                i <= cs@.len(),
                cs@ == self.children@,
                field_index(*self, name@) == field_index_from(cs@, name@, i as int),
            decreases cs.len() - i,
        {
            let hit = match &cs[i].field {
                Some(f) => string_is(f, name),
                None => false,
            };
            if hit {
                return Some(i);
            }
            i = i + 1;
        }
        None
    }

    /// The first child under the field `name`.
    pub fn child_by_field_name(&self, name: &str) -> (r: Option<&SyntaxNode>)
        ensures
            match r {
                Some(c) => 0 <= field_index(*self, name@) < self.children@.len() && *c
                    == self.children@[field_index(*self, name@)],
                None => field_index(*self, name@) == -1,
            },
    {
        match self.field_child_index(name) {
            Some(i) => Some(&self.children[i]),
            None => None,
        }
    }

    /// The index of the first child of kind `kind` from index `from` on.
    pub fn kind_child_index(&self, kind: &str, from: usize) -> (r: Option<usize>)
        ensures
            match r {
                Some(i) => i == kind_index_from(self.children@, kind@, from as int) && i
                    < self.children@.len(),
                None => kind_index_from(self.children@, kind@, from as int) == -1,
            },
    {
        let cs = &self.children;
        let mut i: usize = from;
        while i < cs.len()
            invariant
                from <= i,
                cs@ == self.children@,
                kind_index_from(cs@, kind@, from as int) == kind_index_from(
                    cs@,
                    kind@,
                    i as int,
                ),
            decreases cs.len() - i,
        {
            if cs[i].is_kind(kind) {
                return Some(i);
            }
            i = i + 1;
        }
        None
    }
}

} // verus!
