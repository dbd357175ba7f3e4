use vstd::prelude::*;
use crate::markdown::tokens::{
    append_opt, find_blank, find_nl, lemma_find_blank, lemma_find_nl, lex_group, lex_groups, lex_line,
    lex_lines, lex_spec, token_text, views, MarkdownToken, ParseError, TokenView,
};
use crate::text::{chars_of, eq_ci, eq_ignore_case, starts_with_ci, starts_with_ignore_case, string_of};

verus! {

broadcast use {vstd::std_specs::vec::axiom_vec_index_decreases, vstd::seq::axiom_seq_index_decreases};

/// A node of a changelog document tree. The root carries no token.
#[derive(Debug)]
pub struct Node {
    pub data: Option<MarkdownToken>,
    pub children: Vec<Node>,
}

/// The mathematical value of a node.
pub struct NodeView {
    pub data: Option<TokenView>,
    pub children: Seq<NodeView>,
}

pub open spec fn token_view(t: Option<MarkdownToken>) -> Option<TokenView> {
    match t {
        Some(t) => Some(t@),
        None => None,
    }
}

/// The mathematical value of the tree `n`.
pub open spec fn node_view(n: Node) -> NodeView
    decreases n,
{
    NodeView {
        data: token_view(n.data),
        children: Seq::new(
            n.children@.len(),
            |i: int|
                if 0 <= i < n.children@.len() {
                    node_view(n.children[i])
                } else {
                    NodeView { data: None, children: Seq::empty() }
                },
        ),
    }
}

impl View for Node {
    type V = NodeView;

    open spec fn view(&self) -> NodeView {
        node_view(*self)
    }
}

/// The view of a node, one level down.
pub proof fn lemma_node_view(n: &Node)
    ensures
        n@.data == token_view(n.data),
        n@.children.len() == n.children@.len(),
        forall|i: int| 0 <= i < n.children@.len() ==> #[trigger] n@.children[i] == n.children@[i]@,
{
}

pub open spec fn node_views(s: Seq<Node>) -> Seq<NodeView> {
    s.map_values(|n: Node| n@)
}

pub open spec fn ref_views(s: Seq<&Node>) -> Seq<NodeView> {
    s.map_values(|n: &Node| n@)
}

/// What a node is searched for by. Texts compare up to ASCII case.
pub enum Matcher {
    /// A level-2 heading with exactly this text.
    Heading2(String),
    /// A level-2 heading whose text begins with this text.
    Heading2Prefix(String),
    /// A level-2 heading with any other text than this one.
    Heading2Except(String),
    /// A level-2 heading, provided that, where its text is this one, a level-3 heading lies
    /// below it.
    Heading2Filled(String),
    /// A level-3 heading with exactly this text.
    Heading3(String),
    /// Any level-3 heading.
    AnyHeading3,
    /// A list group.
    List,
    /// A reference definition with exactly this label.
    Reference(String),
    /// A reference definition whose label does not begin with `unreleased`.
    Release,
    /// Any reference definition.
    AnyReference,
}

pub enum MatcherView {
    Heading2(Seq<char>),
    Heading2Prefix(Seq<char>),
    Heading2Except(Seq<char>),
    Heading2Filled(Seq<char>),
    Heading3(Seq<char>),
    AnyHeading3,
    List,
    Reference(Seq<char>),
    Release,
    AnyReference,
}

impl View for Matcher {
    type V = MatcherView;

    open spec fn view(&self) -> MatcherView {
        match self {
            Matcher::Heading2(t) => MatcherView::Heading2(t@),
            Matcher::Heading2Prefix(t) => MatcherView::Heading2Prefix(t@),
            Matcher::Heading2Except(t) => MatcherView::Heading2Except(t@),
            Matcher::Heading2Filled(t) => MatcherView::Heading2Filled(t@),
            Matcher::Heading3(t) => MatcherView::Heading3(t@),
            Matcher::AnyHeading3 => MatcherView::AnyHeading3,
            Matcher::List => MatcherView::List,
            Matcher::Reference(t) => MatcherView::Reference(t@),
            Matcher::Release => MatcherView::Release,
            Matcher::AnyReference => MatcherView::AnyReference,
        }
    }
}

pub open spec fn unreleased_label() -> Seq<char> {
    seq!['u', 'n', 'r', 'e', 'l', 'e', 'a', 's', 'e', 'd']
}

pub open spec fn is_h3(n: NodeView) -> bool {
    n.data matches Some(TokenView::H3(_))
}

/// The level-3 headings of the tree `n`, in pre-order.
pub open spec fn h3s(n: NodeView) -> Seq<NodeView>
    decreases n, 0int,
{
    (if is_h3(n) {
        seq![n]
    } else {
        Seq::empty()
    }) + h3s_list(n.children, 0)
}

pub open spec fn h3s_list(cs: Seq<NodeView>, i: int) -> Seq<NodeView>
    decreases cs, cs.len() - i,
{
    if 0 <= i < cs.len() {
        h3s(cs[i]) + h3s_list(cs, i + 1)
    } else {
        Seq::empty()
    }
}

/// Does `n` satisfy `m`?
pub open spec fn holds(m: MatcherView, n: NodeView) -> bool {
    match m {
        MatcherView::Heading2(t) => n.data matches Some(TokenView::H2(x)) && eq_ci(x, t),
        MatcherView::Heading2Prefix(t) => n.data matches Some(TokenView::H2(x)) && starts_with_ci(x, t),
        MatcherView::Heading2Except(t) => n.data matches Some(TokenView::H2(x)) && !eq_ci(x, t),
        MatcherView::Heading2Filled(t) => n.data matches Some(TokenView::H2(x)) && (eq_ci(x, t)
            ==> h3s(n).len() > 0),
        MatcherView::Heading3(t) => n.data matches Some(TokenView::H3(x)) && eq_ci(x, t),
        MatcherView::AnyHeading3 => is_h3(n),
        MatcherView::List => n.data == Some(TokenView::UnorderedList),
        MatcherView::Reference(t) => n.data matches Some(TokenView::Reference(x, _)) && eq_ci(x, t),
        MatcherView::Release => n.data matches Some(TokenView::Reference(x, _)) && !starts_with_ci(
            x,
            unreleased_label(),
        ),
        MatcherView::AnyReference => n.data matches Some(TokenView::Reference(_, _)),
    }
}

/// Every node of the tree `n` (itself included) that satisfies `m`, in pre-order.
pub open spec fn matching(n: NodeView, m: MatcherView) -> Seq<NodeView>
    decreases n, 0int,
{
    (if holds(m, n) {
        seq![n]
    } else {
        Seq::empty()
    }) + matching_list(n.children, 0, m)
}

/// Every node of the trees `cs[i..]` that satisfies `m`, in pre-order.
pub open spec fn matching_list(cs: Seq<NodeView>, i: int, m: MatcherView) -> Seq<NodeView>
    decreases cs, cs.len() - i,
{
    if 0 <= i < cs.len() {
        matching(cs[i], m) + matching_list(cs, i + 1, m)
    } else {
        Seq::empty()
    }
}

/// The first node of `n` in pre-order that satisfies `m`.
pub open spec fn find_spec(n: NodeView, m: MatcherView) -> Option<NodeView> {
    let f = matching(n, m);
    if f.len() > 0 {
        Some(f[0])
    } else {
        None
    }
}

pub open spec fn renamed(t: Option<TokenView>, name: Seq<char>) -> Option<TokenView> {
    match t {
        Some(TokenView::H1(_)) => Some(TokenView::H1(name)),
        Some(TokenView::H2(_)) => Some(TokenView::H2(name)),
        Some(TokenView::H3(_)) => Some(TokenView::H3(name)),
        _ => t,
    }
}

impl Matcher {
    pub fn test(&self, n: &Node) -> (r: bool)
        ensures
            r == holds(self@, n@),
    {
        match &n.data {
            Some(MarkdownToken::H2(x)) => {
                let xs = chars_of(x.as_str());
                match self {
                    Matcher::Heading2(t) => eq_ignore_case(&xs, &chars_of(t.as_str())),
                    Matcher::Heading2Prefix(t) => starts_with_ignore_case(&xs, &chars_of(t.as_str())),
                    Matcher::Heading2Except(t) => !eq_ignore_case(&xs, &chars_of(t.as_str())),
                    Matcher::Heading2Filled(t) => {
                        if eq_ignore_case(&xs, &chars_of(t.as_str())) {
                            n.has_heading3()
                        } else {
                            true
                        }
                    },
                    _ => false,
                }
            },
            Some(MarkdownToken::H3(x)) => match self {
                Matcher::Heading3(t) => eq_ignore_case(&chars_of(x.as_str()), &chars_of(t.as_str())),
                Matcher::AnyHeading3 => true,
                _ => false,
            },
            Some(MarkdownToken::UnorderedList) => match self {
                Matcher::List => true,
                _ => false,
            },
            Some(MarkdownToken::Reference(x, _)) => match self {
                Matcher::Reference(t) => eq_ignore_case(&chars_of(x.as_str()), &chars_of(t.as_str())),
                Matcher::Release => {
                    let label = chars_of("unreleased");
                    proof {
                        reveal_strlit("unreleased");
                        assert(label@ =~= unreleased_label());
                    }
                    !starts_with_ignore_case(&chars_of(x.as_str()), &label)
                },
                Matcher::AnyReference => true,
                _ => false,
            },
            _ => false,
        }
    }
}

impl Node {
    pub fn new(data: Option<MarkdownToken>, children: Vec<Node>) -> (r: Node)
        ensures
            r.data == data,
            r.children == children,
    {
        Node { data, children }
    }

    pub fn empty() -> (r: Node)
        ensures
            r@ == (NodeView { data: None, children: Seq::empty() }),
    {
        let r = Node::new(None, Vec::new());
        assert(r@.children =~= Seq::<NodeView>::empty());
        r
    }

    pub fn from_token(token: MarkdownToken) -> (r: Node)
        ensures
            r@ == (NodeView { data: Some(token@), children: Seq::empty() }),
    {
        let r = Node::new(Some(token), Vec::new());
        assert(r@.children =~= Seq::<NodeView>::empty());
        r
    }

    /// Appends `child` as the last child.
    pub fn add_child(&mut self, child: Node)
        ensures
            final(self)@ == (NodeView { children: old(self)@.children.push(child@), ..old(self)@ }),
    {
        self.children.push(child);
        assert(self@.children =~= old(self)@.children.push(child@));
    }

    /// Inserts `child` so that it becomes the child at `index`.
    pub fn add_child_at(&mut self, index: usize, child: Node)
        requires
            index <= old(self)@.children.len(),
        ensures
            final(self)@ == (NodeView {
                children: old(self)@.children.insert(index as int, child@),
                ..old(self)@
            }),
    {
        self.children.insert(index, child);
        assert(self@.children =~= old(self)@.children.insert(index as int, child@));
    }

    /// Replaces the text of a heading; any other node is left as it is.
    pub fn rename_heading(&mut self, name: &str)
        ensures
            final(self)@ == (NodeView { data: renamed(old(self)@.data, name@), ..old(self)@ }),
    {
        let ghost cs = self@.children;
        match &self.data {
            Some(MarkdownToken::H1(_)) => {
                self.data = Some(MarkdownToken::H1(name.to_owned()));
            },
            Some(MarkdownToken::H2(_)) => {
                self.data = Some(MarkdownToken::H2(name.to_owned()));
            },
            Some(MarkdownToken::H3(_)) => {
                self.data = Some(MarkdownToken::H3(name.to_owned()));
            },
            _ => {},
        }
        assert(self@.children =~= cs);
    }

    /// The first node in pre-order (this node, then each child's tree in turn) that satisfies
    /// `m`.
    pub fn find_node(&self, m: &Matcher) -> (r: Option<&Node>)
        ensures
            match r {
                Some(x) => find_spec(self@, m@) == Some(x@),
                None => find_spec(self@, m@) is None,
            },
        decreases self,
    {
        if m.test(self) {
            return Some(self);
        }
        let ghost cs = self@.children;
        proof {
            lemma_node_view(self);
        }
        let mut i: usize = 0;
        while i < self.children.len()
            invariant
                i <= self.children@.len(),
                cs == self@.children,
                !holds(m@, self@),
                matching(self@, m@) == matching_list(cs, i as int, m@),
            decreases self.children@.len() - i,
        {
            let child = &self.children[i];
            assert(child@ == cs[i as int]);
            match child.find_node(m) {
                Some(x) => {
                    return Some(x);
                },
                None => {},
            }
            assert(matching_list(cs, i as int, m@) =~= matching_list(cs, i + 1, m@));
            i += 1;
        }
        None
    }

    /// Whether a level-3 heading lies in this tree.
    fn has_heading3(&self) -> (r: bool)
        ensures
            r == (h3s(self@).len() > 0),
        decreases self,
    {
        if let Some(MarkdownToken::H3(_)) = &self.data {
            return true;
        }
        let ghost cs = self@.children;
        proof {
            lemma_node_view(self);
        }
        let mut i: usize = 0;
        while i < self.children.len()
            invariant
                i <= self.children@.len(),
                cs == self@.children,
                !is_h3(self@),
                h3s(self@) == h3s_list(cs, i as int),
            decreases self.children@.len() - i,
        {
            let child = &self.children[i];
            assert(child@ == cs[i as int]);
            if child.has_heading3() {
                return true;
            }
            assert(h3s_list(cs, i as int) =~= h3s_list(cs, i + 1));
            i += 1;
        }
        false
    }

    /// Every node in pre-order that satisfies `m`.
    pub fn filter_nodes(&self, m: &Matcher) -> (r: Vec<&Node>)
        ensures
            ref_views(r@) == matching(self@, m@),
        decreases self,
    {
        let mut r: Vec<&Node> = Vec::new();
        if m.test(self) {
            r.push(self);
        }
        let ghost cs = self@.children;
        assert(matching(self@, m@) == ref_views(r@) + matching_list(cs, 0, m@));
        let mut i: usize = 0;
        while i < self.children.len()
            invariant
                i <= self.children@.len(),
                cs == self@.children,
                matching(self@, m@) == ref_views(r@) + matching_list(cs, i as int, m@),
            decreases self.children@.len() - i,
        {
            let child = &self.children[i];
            assert(child@ == cs[i as int]);
            let mut sub = child.filter_nodes(m);
            let ghost before = ref_views(r@);
            let ghost got = ref_views(sub@);
            r.append(&mut sub);
            assert(ref_views(r@) =~= before + got);
            assert(before + (got + matching_list(cs, i + 1, m@)) =~= (before + got)
                + matching_list(cs, i + 1, m@));
            i += 1;
        }
        assert(ref_views(r@) =~= ref_views(r@) + matching_list(cs, i as int, m@));
        r
    }
}

} // verus!

verus! {

impl Clone for Node {
    fn clone(&self) -> (r: Node)
        ensures
            r@ == self@,
        decreases self,
    {
        let data = match &self.data {
            Some(t) => Some(t.clone()),
            None => None,
        };
        let mut children: Vec<Node> = Vec::new();
        proof {
            lemma_node_view(self);
        }
        let mut i: usize = 0;
        while i < self.children.len()
            invariant
                i <= self.children@.len(),
                children@.len() == i,
                forall|j: int| 0 <= j < i ==> #[trigger] children@[j]@ == self@.children[j],
            decreases self.children@.len() - i,
        {
            let c = self.children[i].clone();
            children.push(c);
            i += 1;
        }
        let r = Node { data, children };
        proof {
            lemma_node_view(&r);
            assert(r@.children =~= self@.children);
        }
        r
    }
}

impl PartialEq for Node {
    fn eq(&self, other: &Node) -> (r: bool)
        ensures
            r == (self@ == other@),
        decreases self,
    {
        proof {
            lemma_node_view(self);
            lemma_node_view(other);
        }
        let same_data = match (&self.data, &other.data) {
            (Some(a), Some(b)) => a.eq(b),
            (None, None) => true,
            _ => false,
        };
        if !same_data || self.children.len() != other.children.len() {
            return false;
        }
        let mut i: usize = 0;
        while i < self.children.len()
            invariant
                i <= self.children@.len() == other.children@.len(),
                forall|j: int| 0 <= j < i ==> #[trigger] self@.children[j] == other@.children[j],
            decreases self.children@.len() - i,
        {
            let same = self.children[i].eq(&other.children[i]);
            if !same {
                assert(self@.children[i as int] != other@.children[i as int]);
                return false;
            }
            i += 1;
        }
        assert(self@.children =~= other@.children);
        true
    }
}

impl vstd::std_specs::cmp::PartialEqSpecImpl for Node {
    open spec fn obeys_eq_spec() -> bool {
        true
    }

    open spec fn eq_spec(&self, other: &Node) -> bool {
        self@ == other@
    }
}

// ---------------------------------------------------------------------------
// Rendering
/// The nodes' tokens in document order; a list group stands for its items followed by one
/// blank line.
pub open spec fn flatten(n: NodeView) -> Seq<TokenView>
    decreases n, 0int,
{
    if n.data == Some(TokenView::UnorderedList) {
        flatten_list(n.children, 0) + seq![TokenView::BlankLine]
    } else {
        (match n.data {
            Some(t) => seq![t],
            None => Seq::empty(),
        }) + flatten_list(n.children, 0)
    }
}

pub open spec fn flatten_list(cs: Seq<NodeView>, i: int) -> Seq<TokenView>
    decreases cs, cs.len() - i,
{
    if 0 <= i < cs.len() {
        flatten(cs[i]) + flatten_list(cs, i + 1)
    } else {
        Seq::empty()
    }
}

/// `texts` joined by newlines.
pub open spec fn join_lines(texts: Seq<Seq<char>>) -> Seq<char>
    decreases texts.len(),
{
    if texts.len() == 0 {
        Seq::empty()
    } else if texts.len() == 1 {
        texts[0]
    } else {
        join_lines(texts.drop_last()) + seq!['\n'] + texts.last()
    }
}

/// The text of a document tree: one token per line.
pub open spec fn render(n: NodeView) -> Seq<char> {
    join_lines(flatten(n).map_values(|t: TokenView| token_text(t)))
}

impl Node {
    fn flatten_into(&self, out: &mut Vec<MarkdownToken>)
        ensures
            views(final(out)@) == views(old(out)@) + flatten(self@),
        decreases self,
    {
        proof {
            lemma_node_view(self);
        }
        let ghost cs = self@.children;
        let is_list = match &self.data {
            Some(MarkdownToken::UnorderedList) => true,
            _ => false,
        };
        if !is_list {
            match &self.data {
                Some(t) => {
                    out.push(t.clone());
                },
                None => {},
            }
        }
        let ghost start = views(out@);
        assert(views(out@) =~= views(old(out)@) + (if is_list {
            Seq::empty()
        } else {
            match self@.data {
                Some(t) => seq![t],
                None => Seq::<TokenView>::empty(),
            }
        }));
        let mut i: usize = 0;
        while i < self.children.len()
            invariant
                i <= self.children@.len(),
                cs == self@.children,
                cs.len() == self.children@.len(),
                forall|j: int| 0 <= j < cs.len() ==> #[trigger] cs[j] == self.children@[j]@,
                start + flatten_list(cs, 0) == views(out@) + flatten_list(cs, i as int),
            decreases self.children@.len() - i,
        {
            let ghost before = views(out@);
            self.children[i].flatten_into(out);
            assert(before + (flatten(cs[i as int]) + flatten_list(cs, i + 1)) =~= (before + flatten(
                cs[i as int],
            )) + flatten_list(cs, i + 1));
            i += 1;
        }
        assert(views(out@) + flatten_list(cs, i as int) =~= views(out@));
        assert(start + flatten_list(cs, 0) == views(out@));
        if is_list {
            let ghost before = views(out@);
            out.push(MarkdownToken::BlankLine);
            assert(views(out@) =~= before + seq![TokenView::BlankLine]);
            assert(views(out@) =~= views(old(out)@) + (flatten_list(cs, 0) + seq![TokenView::BlankLine]));
        } else {
            assert(views(out@) =~= views(old(out)@) + ((match self@.data {
                Some(t) => seq![t],
                None => Seq::<TokenView>::empty(),
            }) + flatten_list(cs, 0)));
        }
    }

    /// The tokens of this tree in document order.
    pub fn flatten(&self) -> (r: Vec<MarkdownToken>)
        ensures
            views(r@) == flatten(self@),
    {
        let mut out: Vec<MarkdownToken> = Vec::new();
        self.flatten_into(&mut out);
        assert(views(out@) =~= flatten(self@));
        out
    }

    /// The text of this tree: the token texts joined by newlines.
    pub fn to_string(&self) -> (r: String)
        ensures
            r@ == render(self@),
    {
        let toks = self.flatten();
        let ghost texts = views(toks@).map_values(|t: TokenView| token_text(t));
        let mut out: Vec<char> = Vec::new();
        let mut i: usize = 0;
        while i < toks.len()
            invariant
                i <= toks@.len(),
                texts.len() == toks@.len(),
                texts == views(toks@).map_values(|t: TokenView| token_text(t)),
                out@ == join_lines(texts.subrange(0, i as int)),
            decreases toks@.len() - i,
        {
            let ghost before = out@;
            if i > 0 {
                out.push('\n');
            }
            toks[i].write_text(&mut out);
            proof {
                let prefix = texts.subrange(0, i + 1);
                assert(prefix.drop_last() =~= texts.subrange(0, i as int));
                if i == 0 {
                    assert(out@ =~= prefix[0]);
                } else {
                    assert(out@ =~= before + seq!['\n'] + prefix.last());
                }
            }
            i += 1;
        }
        assert(texts.subrange(0, i as int) =~= texts);
        string_of(out.as_slice())
    }

    /// Parses a document into its tree.
    pub fn from_str(s: &str) -> (r: Result<Node, ParseError>)
        ensures
            match parse_spec(s@) {
                Some(n) => r is Ok && r->Ok_0@ == n,
                None => r is Err,
            },
    {
        let tokens = MarkdownToken::lex(s)?;
        let children = build(&tokens, 0, tokens.len());
        let r = Node::new(None, children);
        proof {
            lemma_node_view(&r);
            assert(r@.children =~= forest(views(tokens@), 0, tokens@.len() as int));
        }
        Ok(r)
    }
}

// ---------------------------------------------------------------------------
// Building the tree
pub open spec fn level(t: TokenView) -> int {
    match t {
        TokenView::H1(_) => 1,
        TokenView::H2(_) => 2,
        TokenView::H3(_) => 3,
        _ => 0,
    }
}

/// Whether `t` closes a heading of level `lvl`: a heading of that level or above, or a
/// reference definition.
pub open spec fn closes(lvl: int, t: TokenView) -> bool {
    (level(t) > 0 && level(t) <= lvl) || t is Reference
}

/// The index of the first token at or after `i` that closes a heading of level `lvl`.
pub open spec fn section_end(t: Seq<TokenView>, i: int, lvl: int) -> int
    decreases t.len() - i,
{
    if i >= t.len() {
        t.len() as int
    } else if closes(lvl, t[i]) {
        i
    } else {
        section_end(t, i + 1, lvl)
    }
}

/// The index of the first token at or after `i` that is not a list item.
pub open spec fn list_end(t: Seq<TokenView>, i: int) -> int
    decreases t.len() - i,
{
    if i >= t.len() {
        t.len() as int
    } else if t[i] is ListItem {
        list_end(t, i + 1)
    } else {
        i
    }
}

pub open spec fn leaf(t: TokenView) -> NodeView {
    NodeView { data: Some(t), children: Seq::empty() }
}

pub open spec fn clamp(x: int, lo: int, hi: int) -> int {
    if x < lo {
        lo
    } else if x > hi {
        hi
    } else {
        x
    }
}

/// The trees built from the tokens `t[a..b]`: a heading owns the tokens that follow it up to
/// the first one that closes it, a run of list items becomes one list group, and any other
/// token is a leaf.
pub open spec fn forest(t: Seq<TokenView>, a: int, b: int) -> Seq<NodeView>
    decreases b - a,
{
    if a >= b {
        Seq::empty()
    } else if level(t[a]) > 0 {
        let e = clamp(section_end(t, a + 1, level(t[a])), a + 1, b);
        seq![NodeView { data: Some(t[a]), children: forest(t, a + 1, e) }] + forest(t, e, b)
    } else if t[a] is ListItem {
        let e = clamp(list_end(t, a), a + 1, b);
        seq![
            NodeView {
                data: Some(TokenView::UnorderedList),
                children: Seq::new((e - a) as nat, |j: int| leaf(t[a + j])),
            },
        ] + forest(t, e, b)
    } else {
        seq![leaf(t[a])] + forest(t, a + 1, b)
    }
}

/// The tree of a document, or `None` when a line is malformed.
pub open spec fn parse_spec(s: Seq<char>) -> Option<NodeView> {
    match lex_spec(s) {
        Some(ts) => Some(NodeView { data: None, children: forest(ts, 0, ts.len() as int) }),
        None => None,
    }
}

fn level_of(t: &MarkdownToken) -> (r: u8)
    ensures
        r as int == level(t@),
{
    match t {
        MarkdownToken::H1(_) => 1,
        MarkdownToken::H2(_) => 2,
        MarkdownToken::H3(_) => 3,
        _ => 0,
    }
}

fn find_section_end(tokens: &Vec<MarkdownToken>, i: usize, lvl: u8) -> (r: usize)
    requires
        i <= tokens@.len(),
    ensures
        r == section_end(views(tokens@), i as int, lvl as int),
        i <= r <= tokens@.len(),
{
    let ghost t = views(tokens@);
    let mut j = i;
    while j < tokens.len()
        invariant
            i <= j <= tokens@.len(),
            t == views(tokens@),
            section_end(t, j as int, lvl as int) == section_end(t, i as int, lvl as int),
        decreases tokens@.len() - j,
    {
        let l = level_of(&tokens[j]);
        let is_ref = match &tokens[j] {
            MarkdownToken::Reference(_, _) => true,
            _ => false,
        };
        if (l > 0 && l <= lvl) || is_ref {
            return j;
        }
        j += 1;
    }
    j
}

fn find_list_end(tokens: &Vec<MarkdownToken>, i: usize) -> (r: usize)
    requires
        i <= tokens@.len(),
    ensures
        r == list_end(views(tokens@), i as int),
        i <= r <= tokens@.len(),
{
    let ghost t = views(tokens@);
    let mut j = i;
    while j < tokens.len()
        invariant
            i <= j <= tokens@.len(),
            t == views(tokens@),
            list_end(t, j as int) == list_end(t, i as int),
        decreases tokens@.len() - j,
    {
        match &tokens[j] {
            MarkdownToken::ListItem(_, _) => {},
            _ => {
                return j;
            },
        }
        j += 1;
    }
    j
}

/// Builds the trees of the tokens `tokens[a..b]`.
fn build(tokens: &Vec<MarkdownToken>, a: usize, b: usize) -> (r: Vec<Node>)
    requires
        a <= b <= tokens@.len(),
    ensures
        node_views(r@) == forest(views(tokens@), a as int, b as int),
    decreases b - a,
{
    let ghost t = views(tokens@);
    let mut out: Vec<Node> = Vec::new();
    let mut i = a;
    while i < b
        invariant
            a <= i <= b <= tokens@.len(),
            t == views(tokens@),
            node_views(out@) + forest(t, i as int, b as int) == forest(t, a as int, b as int),
        decreases b - i,
    {
        let lvl = level_of(&tokens[i]);
        let ghost before = node_views(out@);
        let next;
        if lvl > 0 {
            let mut e = find_section_end(tokens, i + 1, lvl);
            if e > b {
                e = b;
            }
            let children = build(tokens, i + 1, e);
            let node = Node::new(Some(tokens[i].clone()), children);
            proof {
                lemma_node_view(&node);
                assert(node@.children =~= forest(t, i + 1, e as int));
            }
            out.push(node);
            next = e;
        } else {
            let is_item = match &tokens[i] {
                MarkdownToken::ListItem(_, _) => true,
                _ => false,
            };
            if is_item {
                let mut e = find_list_end(tokens, i);
                if e < i + 1 {
                    e = i + 1;
                }
                if e > b {
                    e = b;
                }
                let mut items: Vec<Node> = Vec::new();
                let mut j = i;
                while j < e
                    invariant
                        i <= j <= e <= b <= tokens@.len(),
                        t == views(tokens@),
                        items@.len() == j - i,
                        forall|k: int| 0 <= k < j - i ==> #[trigger] items@[k]@ == leaf(t[i + k]),
                    decreases e - j,
                {
                    let item = Node::from_token(tokens[j].clone());
                    items.push(item);
                    j += 1;
                }
                let node = Node::new(Some(MarkdownToken::UnorderedList), items);
                proof {
                    lemma_node_view(&node);
                    assert(node@.children =~= Seq::new((e - i) as nat, |k: int| leaf(t[i + k])));
                }
                out.push(node);
                next = e;
            } else {
                let node = Node::from_token(tokens[i].clone());
                out.push(node);
                next = i + 1;
            }
        }
        proof {
            let here = node_views(out@).last();
            assert(node_views(out@) =~= before + seq![here]);
            assert(forest(t, i as int, b as int) == seq![here] + forest(t, next as int, b as int));
            assert(before + (seq![here] + forest(t, next as int, b as int)) =~= (before + seq![here])
                + forest(t, next as int, b as int));
        }
        i = next;
    }
    assert(node_views(out@) =~= node_views(out@) + forest(t, i as int, b as int));
    out
}

} // verus!

verus! {

// ---------------------------------------------------------------------------
// Paths: child indices from a node down to one of its descendants
pub open spec fn valid_path(n: NodeView, p: Seq<usize>) -> bool
    decreases p.len(),
{
    p.len() == 0 || (p[0] < n.children.len() && valid_path(n.children[p[0] as int], p.drop_first()))
}

/// The node that `p` leads to.
pub open spec fn get_at(n: NodeView, p: Seq<usize>) -> NodeView
    decreases p.len(),
{
    if p.len() == 0 {
        n
    } else {
        get_at(n.children[p[0] as int], p.drop_first())
    }
}

/// `n` with the node that `p` leads to replaced by `x`.
pub open spec fn set_at(n: NodeView, p: Seq<usize>, x: NodeView) -> NodeView
    decreases p.len(),
{
    if p.len() == 0 {
        x
    } else {
        NodeView {
            children: n.children.update(
                p[0] as int,
                set_at(n.children[p[0] as int], p.drop_first(), x),
            ),
            ..n
        }
    }
}

/// The path to the first node in pre-order that satisfies `m`.
pub open spec fn first_path(n: NodeView, m: MatcherView) -> Seq<usize>
    decreases n, 0int,
{
    if holds(m, n) {
        Seq::empty()
    } else {
        first_path_list(n.children, 0, m)
    }
}

pub open spec fn first_path_list(cs: Seq<NodeView>, i: int, m: MatcherView) -> Seq<usize>
    decreases cs, cs.len() - i,
{
    if 0 <= i < cs.len() {
        if matching(cs[i], m).len() > 0 {
            seq![i as usize] + first_path(cs[i], m)
        } else {
            first_path_list(cs, i + 1, m)
        }
    } else {
        Seq::empty()
    }
}

impl Node {
    /// The path to the first node in pre-order that satisfies `m`.
    pub fn find_path(&self, m: &Matcher) -> (r: Option<Vec<usize>>)
        ensures
            match r {
                Some(p) => {
                    &&& p@ == first_path(self@, m@)
                    &&& valid_path(self@, p@)
                    &&& find_spec(self@, m@) == Some(get_at(self@, p@))
                },
                None => find_spec(self@, m@) is None,
            },
        decreases self,
    {
        if m.test(self) {
            return Some(Vec::new());
        }
        let ghost cs = self@.children;
        proof {
            lemma_node_view(self);
        }
        let mut i: usize = 0;
        while i < self.children.len()
            invariant
                i <= self.children@.len(),
                cs == self@.children,
                cs.len() == self.children@.len(),
                forall|j: int| 0 <= j < cs.len() ==> #[trigger] cs[j] == self.children@[j]@,
                !holds(m@, self@),
                matching(self@, m@) == matching_list(cs, i as int, m@),
                first_path(self@, m@) == first_path_list(cs, i as int, m@),
            decreases self.children@.len() - i,
        {
            match self.children[i].find_path(m) {
                Some(q) => {
                    let mut p: Vec<usize> = Vec::new();
                    p.push(i);
                    let mut q = q;
                    let ghost qv = q@;
                    p.append(&mut q);
                    proof {
                        assert(p@ =~= seq![i] + qv);
                        assert(p@.drop_first() =~= qv);
                    }
                    return Some(p);
                },
                None => {},
            }
            assert(matching_list(cs, i as int, m@) =~= matching_list(cs, i + 1, m@));
            i += 1;
        }
        None
    }

    /// Puts `new` where `path[k..]` leads and hands back the node that stood there.
    pub fn put_at(&mut self, path: &Vec<usize>, k: usize, new: Node) -> (r: Node)
        requires
            k <= path@.len(),
            valid_path(old(self)@, path@.subrange(k as int, path@.len() as int)),
        ensures
            r@ == get_at(old(self)@, path@.subrange(k as int, path@.len() as int)),
            final(self)@ == set_at(old(self)@, path@.subrange(k as int, path@.len() as int), new@),
        decreases path@.len() - k,
    {
        let ghost p = path@.subrange(k as int, path@.len() as int);
        if k == path.len() {
            let mut x = new;
            std::mem::swap(self, &mut x);
            return x;
        }
        proof {
            lemma_node_view(self);
            assert(p.drop_first() =~= path@.subrange(k + 1, path@.len() as int));
        }
        let i = path[k];
        let ghost before = self.children@;
        let mut child = self.children.remove(i);
        let r = child.put_at(path, k + 1, new);
        self.children.insert(i, child);
        proof {
            lemma_node_view(self);
            assert(self.children@ =~= before.update(i as int, child));
            assert(self@.children =~= old(self)@.children.update(
                i as int,
                set_at(old(self)@.children[i as int], p.drop_first(), new@),
            ));
        }
        r
    }
}

pub proof fn lemma_set_get(n: NodeView, p: Seq<usize>, x: NodeView)
    requires
        valid_path(n, p),
    ensures
        valid_path(set_at(n, p, x), p),
        get_at(set_at(n, p, x), p) == x,
        forall|y: NodeView| set_at(set_at(n, p, x), p, y) == set_at(n, p, y),
    decreases p.len(),
{
    if p.len() > 0 {
        lemma_set_get(n.children[p[0] as int], p.drop_first(), x);
        let c = n.children[p[0] as int];
        let q = p.drop_first();
        assert forall|y: NodeView| set_at(set_at(n, p, x), p, y) == set_at(n, p, y) by {
            assert(set_at(n, p, x).children[p[0] as int] == set_at(c, q, x));
            assert(set_at(set_at(c, q, x), q, y) == set_at(c, q, y));
            assert(set_at(set_at(n, p, x), p, y).children =~= set_at(n, p, y).children);
        }
    }
}

} // verus!

verus! {

/// The node found satisfies the matcher.
pub proof fn lemma_find_holds(n: NodeView, m: MatcherView)
    ensures
        find_spec(n, m) matches Some(x) ==> holds(m, x),
{
    lemma_matching_holds(n, m);
}

pub proof fn lemma_matching_holds(n: NodeView, m: MatcherView)
    ensures
        forall|i: int| 0 <= i < matching(n, m).len() ==> holds(m, #[trigger] matching(n, m)[i]),
    decreases n, 0int,
{
    lemma_matching_list_holds(n.children, 0, m);
    let a: Seq<NodeView> = if holds(m, n) {
        seq![n]
    } else {
        Seq::empty()
    };
    let b = matching_list(n.children, 0, m);
    assert(matching(n, m) == a + b);
    assert forall|j: int| 0 <= j < (a + b).len() implies holds(m, #[trigger] (a + b)[j]) by {
        if j < a.len() {
            assert((a + b)[j] == a[j]);
        } else {
            assert((a + b)[j] == b[j - a.len()]);
        }
    }
}

pub proof fn lemma_matching_list_holds(cs: Seq<NodeView>, i: int, m: MatcherView)
    ensures
        forall|j: int|
            0 <= j < matching_list(cs, i, m).len() ==> holds(m, #[trigger] matching_list(cs, i, m)[j]),
    decreases cs, cs.len() - i,
{
    if 0 <= i < cs.len() {
        lemma_matching_holds(cs[i], m);
        lemma_matching_list_holds(cs, i + 1, m);
        let a = matching(cs[i], m);
        let b = matching_list(cs, i + 1, m);
        assert forall|j: int| 0 <= j < (a + b).len() implies holds(m, #[trigger] (a + b)[j]) by {
            if j < a.len() {
                assert((a + b)[j] == a[j]);
            } else {
                assert((a + b)[j] == b[j - a.len()]);
            }
        }
    }
}

} // verus!

verus! {

/// Replacing one child of a node replaces that child in its view.
pub broadcast proof fn lemma_view_update(a: Node, b: Node, i: int, c: Node)
    requires
        a.data == b.data,
        0 <= i < b.children@.len(),
        a.children@ == b.children@.update(i, c),
    ensures
        #![trigger node_view(a), b.children@.update(i, c)]
        node_view(a) == (NodeView {
            children: node_view(b).children.update(i, node_view(c)),
            ..node_view(b)
        }),
{
    lemma_node_view(&a);
    lemma_node_view(&b);
    assert(node_view(a).children =~= node_view(b).children.update(i, node_view(c)));
}

impl Node {
    /// A mutable handle on the node that `path[k..]` leads to.
    fn node_at_mut(&mut self, path: &Vec<usize>, k: usize) -> (r: &mut Node)
        requires
            k <= path@.len(),
            valid_path(old(self)@, path@.subrange(k as int, path@.len() as int)),
        ensures
            r@ == get_at(old(self)@, path@.subrange(k as int, path@.len() as int)),
            final(self)@ == set_at(old(self)@, path@.subrange(k as int, path@.len() as int), final(r)@),
        decreases path@.len() - k,
    {
        let ghost p = path@.subrange(k as int, path@.len() as int);
        if k == path.len() {
            return self;
        }
        proof {
            lemma_node_view(self);
            assert(p.drop_first() =~= path@.subrange(k + 1, path@.len() as int));
        }
        let i = path[k];
        proof {
            broadcast use lemma_view_update;
        }
        self.children[i].node_at_mut(path, k + 1)
    }
}

} // verus!

verus! {

impl Node {
    /// A mutable handle on the first node in pre-order that satisfies `m`; what is done
    /// through it lands at that node's place in this tree.
    pub fn find_node_mut(&mut self, m: &Matcher) -> (r: Option<&mut Node>)
        ensures
            find_spec(old(self)@, m@) is None ==> r is None && final(self)@ == old(self)@,
            find_spec(old(self)@, m@) is Some ==> r is Some,
            r matches Some(x) ==> find_spec(old(self)@, m@) == Some(x@) && final(self)@ == set_at(
                old(self)@,
                first_path(old(self)@, m@),
                final(x)@,
            ),
    {
        match self.find_path(m) {
            Some(p) => {
                proof {
                    assert(p@.subrange(0, p@.len() as int) =~= p@);
                }
                Some(self.node_at_mut(&p, 0))
            },
            None => None,
        }
    }
}

} // verus!

verus! {

/// The tokens `t[a..b]` with a blank line after each run of list items.
pub open spec fn with_blanks(t: Seq<TokenView>, a: int, b: int) -> Seq<TokenView>
    decreases b - a,
{
    if a >= b {
        Seq::empty()
    } else {
        seq![t[a]] + (if t[a] is ListItem && (a + 1 >= b || !(t[a + 1] is ListItem)) {
            seq![TokenView::BlankLine]
        } else {
            Seq::empty()
        }) + with_blanks(t, a + 1, b)
    }
}

/// `b` does not cut a run of list items.
pub open spec fn run_boundary(t: Seq<TokenView>, b: int) -> bool {
    b == t.len() || !(t[b] is ListItem)
}

proof fn lemma_section_end(t: Seq<TokenView>, i: int, lvl: int)
    requires
        0 <= i <= t.len(),
    ensures
        i <= section_end(t, i, lvl) <= t.len(),
        section_end(t, i, lvl) < t.len() ==> closes(lvl, t[section_end(t, i, lvl)]),
    decreases t.len() - i,
{
    if i < t.len() && !closes(lvl, t[i]) {
        lemma_section_end(t, i + 1, lvl);
    }
}

proof fn lemma_list_end(t: Seq<TokenView>, i: int)
    requires
        0 <= i <= t.len(),
    ensures
        i <= list_end(t, i) <= t.len(),
        run_boundary(t, list_end(t, i)),
        forall|j: int| i <= j < list_end(t, i) ==> #[trigger] t[j] is ListItem,
    decreases t.len() - i,
{
    if i < t.len() && t[i] is ListItem {
        lemma_list_end(t, i + 1);
    }
}

proof fn lemma_flatten_list_shift(x: NodeView, r: Seq<NodeView>, i: int)
    requires
        0 <= i,
    ensures
        flatten_list(seq![x] + r, i + 1) == flatten_list(r, i),
    decreases r.len() - i,
{
    let s = seq![x] + r;
    if i < r.len() {
        assert(s[i + 1] == r[i]);
        lemma_flatten_list_shift(x, r, i + 1);
    }
}

proof fn lemma_flatten_cons(x: NodeView, r: Seq<NodeView>)
    ensures
        flatten_list(seq![x] + r, 0) == flatten(x) + flatten_list(r, 0),
{
    lemma_flatten_list_shift(x, r, 0);
    assert((seq![x] + r)[0] == x);
}

proof fn lemma_blanks_split(t: Seq<TokenView>, a: int, e: int, b: int)
    requires
        0 <= a <= e <= b <= t.len(),
        e == b || !(t[e] is ListItem),
    ensures
        with_blanks(t, a, b) == with_blanks(t, a, e) + with_blanks(t, e, b),
    decreases e - a,
{
    if a < e {
        lemma_blanks_split(t, a + 1, e, b);
        let blank_b = t[a] is ListItem && (a + 1 >= b || !(t[a + 1] is ListItem));
        let blank_e = t[a] is ListItem && (a + 1 >= e || !(t[a + 1] is ListItem));
        assert(blank_b == blank_e);
        let head = seq![t[a]] + (if blank_e {
            seq![TokenView::BlankLine]
        } else {
            Seq::<TokenView>::empty()
        });
        assert(head + (with_blanks(t, a + 1, e) + with_blanks(t, e, b)) =~= (head + with_blanks(
            t,
            a + 1,
            e,
        )) + with_blanks(t, e, b));
    } else {
        assert(with_blanks(t, a, e) =~= Seq::<TokenView>::empty());
        assert(with_blanks(t, a, b) =~= Seq::<TokenView>::empty() + with_blanks(t, e, b));
    }
}

proof fn lemma_leaves(t: Seq<TokenView>, a: int, e: int, i: int)
    requires
        0 <= a <= e <= t.len(),
        0 <= i <= e - a,
        forall|j: int| a <= j < e ==> #[trigger] t[j] is ListItem,
    ensures
        flatten_list(Seq::new((e - a) as nat, |j: int| leaf(t[a + j])), i) == t.subrange(a + i, e),
    decreases e - a - i,
{
    let leaves = Seq::new((e - a) as nat, |j: int| leaf(t[a + j]));
    if i < e - a {
        lemma_leaves(t, a, e, i + 1);
        assert(t[a + i] is ListItem);
        assert(flatten(leaves[i]) =~= seq![t[a + i]] + flatten_list(leaves[i].children, 0));
        assert(flatten_list(leaves[i].children, 0) =~= Seq::<TokenView>::empty());
        assert(t.subrange(a + i, e) =~= seq![t[a + i]] + t.subrange(a + i + 1, e));
    } else {
        assert(t.subrange(a + i, e) =~= Seq::<TokenView>::empty());
    }
}

proof fn lemma_run_blanks(t: Seq<TokenView>, i: int, e: int)
    requires
        0 <= i < e <= t.len(),
        forall|j: int| i <= j < e ==> #[trigger] t[j] is ListItem,
    ensures
        with_blanks(t, i, e) == t.subrange(i, e) + seq![TokenView::BlankLine],
    decreases e - i,
{
    assert(t[i] is ListItem);
    if i + 1 < e {
        lemma_run_blanks(t, i + 1, e);
        assert(t[i + 1] is ListItem);
        assert(with_blanks(t, i, e) =~= seq![t[i]] + Seq::<TokenView>::empty() + with_blanks(t, i + 1, e));
        assert(t.subrange(i, e) =~= seq![t[i]] + t.subrange(i + 1, e));
    } else {
        assert(with_blanks(t, i + 1, e) =~= Seq::<TokenView>::empty());
        assert(t.subrange(i, e) =~= seq![t[i]]);
    }
}

proof fn lemma_forest_flatten(t: Seq<TokenView>, a: int, b: int)
    requires
        0 <= a <= b <= t.len(),
        run_boundary(t, b),
        forall|j: int| 0 <= j < t.len() ==> !(#[trigger] t[j] is UnorderedList),
    ensures
        flatten_list(forest(t, a, b), 0) == with_blanks(t, a, b),
    decreases b - a,
{
    if a >= b {
        assert(forest(t, a, b) =~= Seq::<NodeView>::empty());
    } else if level(t[a]) > 0 {
        let s = section_end(t, a + 1, level(t[a]));
        lemma_section_end(t, a + 1, level(t[a]));
        let e = clamp(s, a + 1, b);
        assert(run_boundary(t, e));
        lemma_forest_flatten(t, a + 1, e);
        lemma_forest_flatten(t, e, b);
        let h = NodeView { data: Some(t[a]), children: forest(t, a + 1, e) };
        lemma_flatten_cons(h, forest(t, e, b));
        lemma_blanks_split(t, a + 1, e, b);
        assert(flatten(h) =~= seq![t[a]] + flatten_list(forest(t, a + 1, e), 0));
        assert(with_blanks(t, a, b) =~= seq![t[a]] + Seq::<TokenView>::empty() + with_blanks(t, a + 1, b));
        assert(flatten_list(forest(t, a, b), 0) =~= with_blanks(t, a, b));
    } else if t[a] is ListItem {
        lemma_list_end(t, a);
        let e = clamp(list_end(t, a), a + 1, b);
        assert(list_end(t, a) > a);
        if list_end(t, a) > b {
            assert(t[b] is ListItem);
        }
        assert(e == list_end(t, a));
        let leaves = Seq::new((e - a) as nat, |j: int| leaf(t[a + j]));
        let l = NodeView { data: Some(TokenView::UnorderedList), children: leaves };
        lemma_leaves(t, a, e, 0);
        lemma_run_blanks(t, a, e);
        lemma_forest_flatten(t, e, b);
        lemma_flatten_cons(l, forest(t, e, b));
        lemma_blanks_split(t, a, e, b);
        assert(flatten_list(forest(t, a, b), 0) =~= with_blanks(t, a, b));
    } else {
        lemma_forest_flatten(t, a + 1, b);
        let x = leaf(t[a]);
        lemma_flatten_cons(x, forest(t, a + 1, b));
        assert(flatten_list(x.children, 0) =~= Seq::<TokenView>::empty());
        assert(flatten(x) =~= seq![t[a]]);
        assert(with_blanks(t, a, b) =~= seq![t[a]] + Seq::<TokenView>::empty() + with_blanks(t, a + 1, b));
        assert(flatten_list(forest(t, a, b), 0) =~= with_blanks(t, a, b));
    }
}

/// Building a tree from tokens loses none of them: flattening the tree gives the tokens back
/// in order, with one blank line after each run of list items (provided that no token is a
/// list-group marker, which the tokenizer never produces).
pub proof fn lemma_build_then_flatten(t: Seq<TokenView>)
    requires
        forall|j: int| 0 <= j < t.len() ==> !(#[trigger] t[j] is UnorderedList),
    ensures
        flatten(NodeView { data: None, children: forest(t, 0, t.len() as int) }) == with_blanks(
            t,
            0,
            t.len() as int,
        ),
{
    lemma_forest_flatten(t, 0, t.len() as int);
    let n = NodeView { data: None, children: forest(t, 0, t.len() as int) };
    assert(flatten(n) =~= Seq::<TokenView>::empty() + flatten_list(n.children, 0));
}

} // verus!

verus! {

pub open spec fn no_markers(ts: Seq<TokenView>) -> bool {
    forall|j: int| 0 <= j < ts.len() ==> !(#[trigger] ts[j] is UnorderedList)
}

proof fn lemma_no_markers_concat(x: Seq<TokenView>, y: Seq<TokenView>)
    requires
        no_markers(x),
        no_markers(y),
    ensures
        no_markers(x + y),
{
    assert forall|j: int| 0 <= j < (x + y).len() implies !(#[trigger] (x + y)[j] is UnorderedList) by {
        if j < x.len() {
            assert((x + y)[j] == x[j]);
        } else {
            assert((x + y)[j] == y[j - x.len()]);
        }
    }
}

proof fn lemma_append_opt_markers(a: Option<Seq<TokenView>>, b: Option<Seq<TokenView>>)
    requires
        a matches Some(x) ==> no_markers(x),
        b matches Some(y) ==> no_markers(y),
    ensures
        append_opt(a, b) matches Some(z) ==> no_markers(z),
{
    if a is Some && b is Some {
        lemma_no_markers_concat(a->Some_0, b->Some_0);
    }
}

proof fn lemma_lines_markers(s: Seq<char>, i: int, e: int)
    ensures
        lex_lines(s, i, e) matches Some(ts) ==> no_markers(ts),
    decreases e - i,
{
    if i < e {
        let j = find_nl(s, i, e);
        lemma_find_nl(s, i, e);
        let here = match lex_line(s, i, j) {
            Some(t) => Some(seq![t]),
            None => None,
        };
        if j < e {
            lemma_lines_markers(s, j + 1, e);
            lemma_append_opt_markers(here, lex_lines(s, j + 1, e));
        }
    }
}

proof fn lemma_groups_markers(s: Seq<char>, i: int)
    requires
        0 <= i <= s.len(),
    ensures
        lex_groups(s, i) matches Some(ts) ==> no_markers(ts),
    decreases s.len() - i,
{
    let e = find_blank(s, i);
    lemma_find_blank(s, i);
    lemma_lines_markers(s, i, e);
    if e < s.len() {
        lemma_groups_markers(s, e + 2);
        lemma_append_opt_markers(lex_group(s, i, e), lex_groups(s, e + 2));
    }
}

/// Parsing keeps every token: flattening the tree of a document gives back its tokens in
/// order, with one blank line after each run of list items.
pub proof fn lemma_parse_then_flatten(s: Seq<char>)
    requires
        lex_spec(s) is Some,
    ensures
        flatten(parse_spec(s)->Some_0) == with_blanks(
            lex_spec(s)->Some_0,
            0,
            lex_spec(s)->Some_0.len() as int,
        ),
{
    lemma_groups_markers(s, 0);
    lemma_build_then_flatten(lex_spec(s)->Some_0);
}

} // verus!
