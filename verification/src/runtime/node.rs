//! Parse-tree nodes and direct-child tag access.
//!
//! A binding `name:X` becomes a node tag on a direct child. Lookup scans the
//! direct children only: a search of the whole subtree would let an outer
//! node find an inner node's identically named tag, silently.

use vstd::prelude::*;
use crate::runtime::source::{FileId, Span};
use crate::text::{ascii_lowercase, lower_seq, str_eq};

verus! {

/// A node of a parse tree as a generated parser reports it: the rule that
/// matched, the tag its parent gave it, the text it covers and its byte
/// offsets, and its children in order.
#[derive(Debug)]
pub struct Pair<R> {
    pub rule: R,
    pub tag: Option<String>,
    pub text: String,
    pub start: usize,
    pub end: usize,
    pub children: Vec<Pair<R>>,
}

/// Whether `p` carries the tag `tag`.
pub open spec fn has_tag<R>(p: Pair<R>, tag: Seq<char>) -> bool {
    p.tag matches Some(t) && t@ == tag
}

fn tag_matches<R>(p: &Pair<R>, tag: &str) -> (b: bool)
    ensures
        b == has_tag(*p, tag@),
{
    match &p.tag {
        Some(t) => str_eq(t.as_str(), tag),
        None => false,
    }
}

/// The children of `s` tagged `tag`, in order.
pub open spec fn with_tag<R>(s: Seq<Pair<R>>, tag: Seq<char>) -> Seq<Pair<R>> {
    s.filter(tag_pred(tag))
}

pub open spec fn tag_pred<R>(tag: Seq<char>) -> spec_fn(Pair<R>) -> bool {
    |c: Pair<R>| has_tag(c, tag)
}

/// The first direct child of `pair` tagged `tag`.
pub fn tagged<'i, R>(pair: &'i Pair<R>, tag: &str) -> (r: Option<&'i Pair<R>>)
    ensures
        match r {
            Some(c) => exists|i: int|
                0 <= i < pair.children@.len() && pair.children@[i] == *c && has_tag(*c, tag@) && forall|j: int|
                    0 <= j < i ==> !has_tag(#[trigger] pair.children@[j], tag@),
            None => forall|j: int| 0 <= j < pair.children@.len() ==> !has_tag(#[trigger] pair.children@[j], tag@),
        },
{
    let mut i: usize = 0;
    while i < pair.children.len()
        invariant
            i <= pair.children@.len(),
            forall|j: int| 0 <= j < i ==> !has_tag(#[trigger] pair.children@[j], tag@),
        decreases pair.children@.len() - i,
    {
        if tag_matches(&pair.children[i], tag) {
            return Some(&pair.children[i]);
        }
        i = i + 1;
    }
    None
}

pub open spec fn derefs<R>(s: Seq<&Pair<R>>) -> Seq<Pair<R>> {
    s.map_values(|p: &Pair<R>| *p)
}

/// Every direct child of `pair` tagged `tag`, in order.
pub fn tagged_all<'i, R>(pair: &'i Pair<R>, tag: &str) -> (r: Vec<&'i Pair<R>>)
    ensures
        derefs(r@) == with_tag(pair.children@, tag@),
{
    let mut r: Vec<&'i Pair<R>> = Vec::new();
    let mut i: usize = 0;
    proof {
        reveal(Seq::filter);
        assert(pair.children@.take(0).filter(tag_pred::<R>(tag@)) =~= Seq::<Pair<R>>::empty());
        assert(derefs(r@) =~= Seq::<Pair<R>>::empty());
    }
    while i < pair.children.len()
        invariant
            i <= pair.children@.len(),
            derefs(r@) == with_tag(pair.children@.take(i as int), tag@),
        decreases pair.children@.len() - i,
    {
        let ghost before = r@;
        assert(pair.children@.take(i + 1).drop_last() == pair.children@.take(i as int));
        assert(pair.children@.take(i + 1).last() == pair.children@[i as int]);
        let m = tag_matches(&pair.children[i], tag);
        let ghost t = pair.children@.take(i + 1);
        assert(t.len() > 0);
        reveal(Seq::filter);
        assert(t.filter(tag_pred(tag@)) == (if tag_pred::<R>(tag@)(t.last()) {
            t.drop_last().filter(tag_pred(tag@)).push(t.last())
        } else {
            t.drop_last().filter(tag_pred(tag@))
        }));
        if m {
            r.push(&pair.children[i]);
            assert(derefs(r@) =~= derefs(before).push(pair.children@[i as int]));
        }
        i = i + 1;
    }
    assert(pair.children@.take(pair.children@.len() as int) == pair.children@);
    r
}

/// A parse-tree node in a known file.
#[derive(Debug)]
pub struct Node<'i, R> {
    pair: &'i Pair<R>,
    file: FileId,
}

/// A span from byte offsets (which wrap past 4 GiB).
fn span_of(file: FileId, start: usize, end: usize) -> (s: Span)
    ensures
        s.file == file,
        start <= u32::MAX ==> s.lo == start,
        end <= u32::MAX ==> s.hi == end,
{
    let lo: u32 = #[verifier::truncate] (start as u32);
    let hi: u32 = #[verifier::truncate] (end as u32);
    Span::new(file, lo, hi)
}

impl<'i, R> Node<'i, R> {
    pub closed spec fn pair_spec(&self) -> Pair<R> {
        *self.pair
    }

    pub closed spec fn file_spec(&self) -> FileId {
        self.file
    }

    pub fn new(pair: &'i Pair<R>, file: FileId) -> (n: Node<'i, R>)
        ensures
            n.pair_spec() == *pair,
            n.file_spec() == file,
    {
        Node { pair, file }
    }

    /// The text this node covers.
    pub fn text(&self) -> (s: &'i str)
        ensures
            s@ == self.pair_spec().text@,
    {
        self.pair.text.as_str()
    }

    pub fn span(&self) -> (s: Span)
        ensures
            s.file == self.file_spec(),
            self.pair_spec().start <= u32::MAX ==> s.lo == self.pair_spec().start,
            self.pair_spec().end <= u32::MAX ==> s.hi == self.pair_spec().end,
    {
        span_of(self.file, self.pair.start, self.pair.end)
    }

    pub fn rule(&self) -> (r: R)
        where R: Copy
        ensures
            r == self.pair_spec().rule,
    {
        self.pair.rule
    }

    pub fn file(&self) -> (f: FileId)
        ensures
            f == self.file_spec(),
    {
        self.file
    }

    pub fn pair(&self) -> (p: &'i Pair<R>)
        ensures
            *p == self.pair_spec(),
    {
        self.pair
    }

    pub fn into_pair(self) -> (p: &'i Pair<R>)
        ensures
            *p == self.pair_spec(),
    {
        self.pair
    }

    /// The direct child tagged `tag`, in the same file.
    pub fn tagged(&self, tag: &str) -> (r: Option<Node<'i, R>>)
        ensures
            match r {
                Some(n) => n.file_spec() == self.file_spec() && exists|i: int|
                    0 <= i < self.pair_spec().children@.len() && self.pair_spec().children@[i]
                        == n.pair_spec() && has_tag(n.pair_spec(), tag@) && forall|j: int|
                        0 <= j < i ==> !has_tag(#[trigger] self.pair_spec().children@[j], tag@),
                None => forall|j: int|
                    0 <= j < self.pair_spec().children@.len() ==> !has_tag(
                        #[trigger] self.pair_spec().children@[j],
                        tag@,
                    ),
            },
    {
        match tagged(self.pair, tag) {
            Some(p) => Some(Node::new(p, self.file)),
            None => None,
        }
    }

    /// Every direct child tagged `tag`, in order.
    pub fn tagged_all(&self, tag: &str) -> (r: Vec<Node<'i, R>>)
        ensures
            r@.len() == with_tag(self.pair_spec().children@, tag@).len(),
            forall|k: int|
                0 <= k < r@.len() ==> #[trigger] r@[k].pair_spec() == with_tag(self.pair_spec().children@, tag@)[k] && r@[k].file_spec() == self.file_spec(),
    {
        let ps = tagged_all(self.pair, tag);
        let mut r: Vec<Node<'i, R>> = Vec::new();
        let mut k: usize = 0;
        while k < ps.len()
            invariant
                k <= ps@.len(),
                r@.len() == k,
                forall|m: int| 0 <= m < k ==> #[trigger] r@[m].pair_spec() == *ps@[m] && r@[m].file_spec() == self.file_spec(),
            decreases ps@.len() - k,
        {
            r.push(Node::new(ps[k], self.file));
            k = k + 1;
        }
        assert forall|m: int| 0 <= m < r@.len() implies *ps@[m] == derefs(ps@)[m] by {}
        r
    }

    /// Every direct child, in order.
    pub fn children(&self) -> (r: Vec<Node<'i, R>>)
        ensures
            r@.len() == self.pair_spec().children@.len(),
            forall|k: int|
                0 <= k < r@.len() ==> #[trigger] r@[k].pair_spec() == self.pair_spec().children@[k]
                    && r@[k].file_spec() == self.file_spec(),
    {
        let mut r: Vec<Node<'i, R>> = Vec::new();
        let mut k: usize = 0;
        while k < self.pair.children.len()
            invariant
                k <= self.pair.children@.len(),
                r@.len() == k,
                forall|m: int|
                    0 <= m < k ==> #[trigger] r@[m].pair_spec() == self.pair.children@[m] && r@[m].file_spec()
                        == self.file,
            decreases self.pair.children@.len() - k,
        {
            r.push(Node::new(&self.pair.children[k], self.file));
            k = k + 1;
        }
        r
    }
}

/// A node that is an identifier: its text, and the folded key for lookup.
#[derive(Debug)]
pub struct Ident<'i, R> {
    node: Node<'i, R>,
}

impl<'i, R> Ident<'i, R> {
    pub closed spec fn node_spec(&self) -> Node<'i, R> {
        self.node
    }

    pub fn new(node: Node<'i, R>) -> (id: Ident<'i, R>)
        ensures
            id.node_spec() == node,
    {
        Ident { node }
    }

    pub fn text(&self) -> (s: &'i str)
        ensures
            s@ == self.node_spec().pair_spec().text@,
    {
        self.node.text()
    }

    /// The ASCII-folded spelling, for symbol-table lookup.
    pub fn key(&self) -> (s: String)
        ensures
            s@ == lower_seq(self.node_spec().pair_spec().text@),
    {
        ascii_lowercase(self.node.text())
    }

    pub fn span(&self) -> (s: Span)
        ensures
            s.file == self.node_spec().file_spec(),
    {
        self.node.span()
    }

    pub fn node(&self) -> (n: &Node<'i, R>)
        ensures
            *n == self.node_spec(),
    {
        &self.node
    }
}

/// A typed view over a node, implemented by generated code: built from a
/// pair, it answers its node, span and text.
pub trait NodeView<'i, R: 'i>: Sized {
    fn from_pair(pair: &'i Pair<R>, file: FileId) -> Self;

    fn node(&self) -> &Node<'i, R>;

    fn span(&self) -> Span {
        self.node().span()
    }

    fn text(&self) -> &'i str {
        self.node().text()
    }
}

} // verus!
