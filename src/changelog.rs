use vstd::prelude::*;
use crate::markdown::ast::{
    find_spec, first_path, get_at, lemma_node_view, lemma_set_get, leaf, set_at, valid_path,
    Matcher, MatcherView, Node, NodeView,
};
use crate::markdown::tokens::{push_all, push_text, MarkdownToken, ParseError, TokenView};
use crate::text::{chars_of, string_of};

verus! {

/// The package that a section belongs to, in a repository of several packages.
#[derive(Debug)]
pub struct Scope {
    pub name: String,
    pub is_root: bool,
}

pub struct ScopeView {
    pub name: Seq<char>,
    pub is_root: bool,
}

impl View for Scope {
    type V = ScopeView;

    open spec fn view(&self) -> ScopeView {
        ScopeView { name: self.name@, is_root: self.is_root }
    }
}

pub open spec fn scope_view(s: Option<&Scope>) -> Option<ScopeView> {
    match s {
        Some(s) => Some(s@),
        None => None,
    }
}

/// Why an edit of the document failed.
#[derive(Debug, Clone, Copy, PartialEq, Eq, Structural)]
pub enum ChangelogError {
    /// The document does not start with a title followed by its description.
    MalformedTitle,
    /// A release needs an earlier release's reference definition to compare with.
    MissingVersion,
}

/// A changelog document.
#[derive(Debug)]
pub struct Changelog {
    pub root: Node,
}

pub open spec fn unreleased_word() -> Seq<char> {
    seq!['U', 'n', 'r', 'e', 'l', 'e', 'a', 's', 'e', 'd']
}

/// `[Unreleased]`, or `[Unreleased - name]` for a scope.
pub open spec fn unreleased_heading_spec(scope: Option<ScopeView>) -> Seq<char> {
    match scope {
        Some(s) => seq!['['] + unreleased_word() + seq![' ', '-', ' '] + s.name + seq![']'],
        None => seq!['['] + unreleased_word() + seq![']'],
    }
}

pub open spec fn placeholder_text() -> Seq<char> {
    seq!['N', 'o', 't', 'h', 'i', 'n', 'g', ' ', 'y', 'e', 't', '!']
}

/// A list group that holds only the placeholder item.
pub open spec fn is_placeholder_list(n: NodeView) -> bool {
    &&& n.data == Some(TokenView::UnorderedList)
    &&& n.children.len() == 1
    &&& n.children[0].children.len() == 0
    &&& n.children[0].data matches Some(TokenView::ListItem(t, _))
    &&& t == placeholder_text()
}

pub open spec fn is_h3_named(n: NodeView, name: Seq<char>) -> bool {
    n.data matches Some(TokenView::H3(x)) && crate::text::eq_ci(x, name)
}

pub open spec fn is_list(n: NodeView) -> bool {
    n.data == Some(TokenView::UnorderedList)
}

/// The index of the first of `cs[i..]` that is a placeholder list, or `cs.len()`.
pub open spec fn first_placeholder(cs: Seq<NodeView>, i: int) -> int
    decreases cs.len() - i,
{
    if i >= cs.len() {
        cs.len() as int
    } else if is_placeholder_list(cs[i]) {
        i
    } else {
        first_placeholder(cs, i + 1)
    }
}

/// The index of the first of `cs[i..]` that is a level-3 heading named `name`, or `cs.len()`.
pub open spec fn first_h3_named(cs: Seq<NodeView>, name: Seq<char>, i: int) -> int
    decreases cs.len() - i,
{
    if i >= cs.len() {
        cs.len() as int
    } else if is_h3_named(cs[i], name) {
        i
    } else {
        first_h3_named(cs, name, i + 1)
    }
}

/// The index of the first of `cs[i..]` that is a list group, or `cs.len()`.
pub open spec fn first_list(cs: Seq<NodeView>, i: int) -> int
    decreases cs.len() - i,
{
    if i >= cs.len() {
        cs.len() as int
    } else if is_list(cs[i]) {
        i
    } else {
        first_list(cs, i + 1)
    }
}

pub open spec fn item_node(item: Seq<char>) -> NodeView {
    leaf(TokenView::ListItem(item, 0))
}

pub open spec fn list_of(items: Seq<NodeView>) -> NodeView {
    NodeView { data: Some(TokenView::UnorderedList), children: items }
}

/// A new category heading holding one list with one item.
pub open spec fn new_category(name: Seq<char>, item: Seq<char>) -> NodeView {
    NodeView { data: Some(TokenView::H3(name)), children: seq![list_of(seq![item_node(item)])] }
}

/// The category `s3` with `item` added to its first list, or to a new list if it has none.
pub open spec fn category_with_item(s3: NodeView, item: Seq<char>) -> NodeView {
    let u = first_list(s3.children, 0);
    if u < s3.children.len() {
        let l = s3.children[u];
        NodeView {
            children: s3.children.update(
                u,
                NodeView { children: l.children.push(item_node(item)), ..l },
            ),
            ..s3
        }
    } else {
        NodeView { children: s3.children.push(list_of(seq![item_node(item)])), ..s3 }
    }
}

/// The Unreleased section `sec` after adding `item` to its category `name`: the placeholder
/// list goes, the category is found or appended, and the item goes at the end of its list.
pub open spec fn with_item(sec: NodeView, name: Seq<char>, item: Seq<char>) -> NodeView {
    let c0 = sec.children;
    let p = first_placeholder(c0, 0);
    let cs = if p < c0.len() {
        c0.remove(p)
    } else {
        c0
    };
    let h = first_h3_named(cs, name, 0);
    if h < cs.len() {
        NodeView { children: cs.update(h, category_with_item(cs[h], item)), ..sec }
    } else {
        NodeView { children: cs.push(new_category(name, item)), ..sec }
    }
}

/// The document begins with a title that has at least two children (its description).
pub open spec fn title_ok(root: NodeView) -> bool {
    &&& root.children.len() > 0
    &&& root.children[0].data matches Some(TokenView::H1(_))
    &&& root.children[0].children.len() >= 2
}

/// `root` with `sec` placed as the third child of the title.
pub open spec fn insert_section(root: NodeView, sec: NodeView) -> NodeView {
    let t = root.children[0];
    NodeView {
        children: root.children.update(
            0,
            NodeView { children: t.children.insert(2, sec), ..t },
        ),
        ..root
    }
}

/// The tree after adding `item` under the category `name` of the Unreleased section headed
/// `u`; the section is created if the document has none.
pub open spec fn add_item_spec(root: NodeView, u: Seq<char>, name: Seq<char>, item: Seq<char>) -> Result<
    NodeView,
    ChangelogError,
> {
    let m = MatcherView::Heading2(u);
    match find_spec(root, m) {
        Some(sec) => Ok(set_at(root, first_path(root, m), with_item(sec, name, item))),
        None => if title_ok(root) {
            Ok(
                insert_section(
                    root,
                    NodeView { data: Some(TokenView::H2(u)), children: seq![new_category(name, item)] },
                ),
            )
        } else {
            Err(ChangelogError::MalformedTitle)
        },
    }
}

fn new_item(item: &str) -> (r: Node)
    ensures
        r@ == item_node(item@),
{
    Node::from_token(MarkdownToken::ListItem(item.to_owned(), 0))
}

fn new_list(item: &str) -> (r: Node)
    ensures
        r@ == list_of(seq![item_node(item@)]),
{
    let mut ul = Node::from_token(MarkdownToken::UnorderedList);
    ul.add_child(new_item(item));
    assert(ul@.children =~= seq![item_node(item@)]);
    ul
}

fn new_category_node(name: &str, item: &str) -> (r: Node)
    ensures
        r@ == new_category(name@, item@),
{
    let mut h3 = Node::from_token(MarkdownToken::H3(name.to_owned()));
    h3.add_child(new_list(item));
    assert(h3@.children =~= seq![list_of(seq![item_node(item@)])]);
    h3
}

fn is_placeholder_node(n: &Node) -> (r: bool)
    ensures
        r == is_placeholder_list(n@),
{
    proof {
        lemma_node_view(n);
    }
    match &n.data {
        Some(MarkdownToken::UnorderedList) => {},
        _ => {
            return false;
        },
    }
    if n.children.len() != 1 {
        return false;
    }
    let c = &n.children[0];
    proof {
        lemma_node_view(c);
    }
    if c.children.len() != 0 {
        return false;
    }
    match &c.data {
        Some(MarkdownToken::ListItem(t, _)) => {
            let p = String::from_str("Nothing yet!");
            proof {
                reveal_strlit("Nothing yet!");
                assert(p@ =~= placeholder_text());
            }
            t.eq(&p)
        },
        _ => false,
    }
}

fn find_placeholder(cs: &Vec<Node>) -> (r: usize)
    ensures
        r == first_placeholder(crate::markdown::ast::node_views(cs@), 0),
        r <= cs@.len(),
{
    let ghost v = crate::markdown::ast::node_views(cs@);
    let mut i: usize = 0;
    while i < cs.len()
        invariant
            i <= cs@.len(),
            v == crate::markdown::ast::node_views(cs@),
            first_placeholder(v, i as int) == first_placeholder(v, 0),
        decreases cs@.len() - i,
    {
        if is_placeholder_node(&cs[i]) {
            return i;
        }
        i += 1;
    }
    i
}

fn find_category(cs: &Vec<Node>, name: &Vec<char>) -> (r: usize)
    ensures
        r == first_h3_named(crate::markdown::ast::node_views(cs@), name@, 0),
        r <= cs@.len(),
{
    let ghost v = crate::markdown::ast::node_views(cs@);
    let mut i: usize = 0;
    while i < cs.len()
        invariant
            i <= cs@.len(),
            v == crate::markdown::ast::node_views(cs@),
            first_h3_named(v, name@, i as int) == first_h3_named(v, name@, 0),
        decreases cs@.len() - i,
    {
        let hit = match &cs[i].data {
            Some(MarkdownToken::H3(x)) => crate::text::eq_ignore_case(&chars_of(x.as_str()), name),
            _ => false,
        };
        proof {
            lemma_node_view(&cs[i as int]);
        }
        if hit {
            return i;
        }
        i += 1;
    }
    i
}

fn find_list(cs: &Vec<Node>) -> (r: usize)
    ensures
        r == first_list(crate::markdown::ast::node_views(cs@), 0),
        r <= cs@.len(),
{
    let ghost v = crate::markdown::ast::node_views(cs@);
    let mut i: usize = 0;
    while i < cs.len()
        invariant
            i <= cs@.len(),
            v == crate::markdown::ast::node_views(cs@),
            first_list(v, i as int) == first_list(v, 0),
        decreases cs@.len() - i,
    {
        let hit = match &cs[i].data {
            Some(MarkdownToken::UnorderedList) => true,
            _ => false,
        };
        proof {
            lemma_node_view(&cs[i as int]);
        }
        if hit {
            return i;
        }
        i += 1;
    }
    i
}

/// Adds `item` to the category `s3`.
fn add_to_category(s3: &mut Node, item: &str)
    ensures
        final(s3)@ == category_with_item(old(s3)@, item@),
{
    proof {
        lemma_node_view(s3);
        assert(crate::markdown::ast::node_views(s3.children@) =~= s3@.children);
    }
    let u = find_list(&s3.children);
    if u < s3.children.len() {
        let ghost before = s3.children@;
        let mut l = s3.children.remove(u);
        l.add_child(new_item(item));
        s3.children.insert(u, l);
        proof {
            lemma_node_view(s3);
            assert(s3.children@ =~= before.update(u as int, l));
            assert(s3@.children =~= category_with_item(old(s3)@, item@).children);
        }
    } else {
        s3.add_child(new_list(item));
    }
}

/// Adds `item` to the category `name` of the Unreleased section `sec`.
fn add_to_unreleased(sec: &mut Node, name: &str, item: &str)
    ensures
        final(sec)@ == with_item(old(sec)@, name@, item@),
{
    proof {
        lemma_node_view(sec);
        assert(crate::markdown::ast::node_views(sec.children@) =~= sec@.children);
    }
    let p = find_placeholder(&sec.children);
    if p < sec.children.len() {
        let _ = sec.children.remove(p);
    }
    proof {
        lemma_node_view(sec);
        assert(crate::markdown::ast::node_views(sec.children@) =~= sec@.children);
        let c0 = old(sec)@.children;
        assert(sec@.children =~= (if p < c0.len() {
            c0.remove(p as int)
        } else {
            c0
        }));
    }
    let ghost mid = sec@;
    let name_chars = chars_of(name);
    let h = find_category(&sec.children, &name_chars);
    if h < sec.children.len() {
        let ghost before = sec.children@;
        let mut s3 = sec.children.remove(h);
        add_to_category(&mut s3, item);
        sec.children.insert(h, s3);
        proof {
            lemma_node_view(sec);
            assert(sec.children@ =~= before.update(h as int, s3));
            assert(sec@.children =~= mid.children.update(
                h as int,
                category_with_item(mid.children[h as int], item@),
            ));
        }
    } else {
        sec.add_child(new_category_node(name, item));
    }
}

impl Changelog {
    /// Parses a changelog document.
    pub fn parse(text: &str) -> (r: Result<Changelog, ParseError>)
        ensures
            match crate::markdown::ast::parse_spec(text@) {
                Some(n) => r is Ok && r->Ok_0.root@ == n,
                None => r is Err,
            },
    {
        let root = Node::from_str(text)?;
        Ok(Changelog { root })
    }

    /// The text of the document.
    pub fn to_string(&self) -> (r: String)
        ensures
            r@ == crate::markdown::ast::render(self.root@),
    {
        self.root.to_string()
    }

    /// The heading of the Unreleased section of `scope`.
    pub fn unreleased_heading(&self, scope: Option<&Scope>) -> (r: String)
        ensures
            r@ == unreleased_heading_spec(scope_view(scope)),
    {
        let mut out: Vec<char> = Vec::new();
        push_all(&mut out, &['[', 'U', 'n', 'r', 'e', 'l', 'e', 'a', 's', 'e', 'd']);
        match scope {
            Some(s) => {
                push_all(&mut out, &[' ', '-', ' ']);
                push_text(&mut out, &s.name);
            },
            None => {},
        }
        out.push(']');
        assert(out@ =~= unreleased_heading_spec(scope_view(scope)));
        string_of(out.as_slice())
    }

    /// Adds `item` to the category `section_name` (compared up to ASCII case) of the Unreleased
    /// section of `scope`, creating what is missing, and removing the placeholder list.
    pub fn add_list_item_to_section(
        &mut self,
        section_name: &str,
        item: &str,
        scope: Option<&Scope>,
    ) -> (r: Result<(), ChangelogError>)
        ensures
            match add_item_spec(
                old(self).root@,
                unreleased_heading_spec(scope_view(scope)),
                section_name@,
                item@,
            ) {
                Ok(t) => r is Ok && final(self).root@ == t,
                Err(e) => r == Err::<(), ChangelogError>(e) && final(self).root@ == old(self).root@,
            },
    {
        let u = self.unreleased_heading(scope);
        let m = Matcher::Heading2(u);
        match self.root.find_path(&m) {
            Some(p) => {
                proof {
                    assert(p@.subrange(0, p@.len() as int) =~= p@);
                    lemma_set_get(old(self).root@, p@, NodeView { data: None, children: Seq::empty() });
                }
                let mut sec = self.root.put_at(&p, 0, Node::empty());
                add_to_unreleased(&mut sec, section_name, item);
                let _ = self.root.put_at(&p, 0, sec);
                Ok(())
            },
            None => {
                if !self.title_ok() {
                    return Err(ChangelogError::MalformedTitle);
                }
                let mut section = Node::from_token(MarkdownToken::H2(self.unreleased_heading(scope)));
                section.add_child(new_category_node(section_name, item));
                assert(section@.children =~= seq![new_category(section_name@, item@)]);
                self.insert_in_title(section);
                Ok(())
            },
        }
    }

    fn title_ok(&self) -> (r: bool)
        ensures
            r == title_ok(self.root@),
    {
        proof {
            lemma_node_view(&self.root);
        }
        if self.root.children.len() == 0 {
            return false;
        }
        let t = &self.root.children[0];
        proof {
            lemma_node_view(t);
        }
        match &t.data {
            Some(MarkdownToken::H1(_)) => t.children.len() >= 2,
            _ => false,
        }
    }

    /// Places `sec` as the third child of the title.
    fn insert_in_title(&mut self, sec: Node)
        requires
            title_ok(old(self).root@),
        ensures
            final(self).root@ == insert_section(old(self).root@, sec@),
    {
        proof {
            lemma_node_view(&self.root);
        }
        let ghost before = self.root.children@;
        let mut title = self.root.children.remove(0);
        proof {
            lemma_node_view(&title);
        }
        title.add_child_at(2, sec);
        self.root.children.insert(0, title);
        proof {
            lemma_node_view(&self.root);
            assert(self.root.children@ =~= before.update(0, title));
            assert(self.root@.children =~= insert_section(old(self).root@, sec@).children);
        }
    }
}

} // verus!

verus! {

pub open spec fn latest_word() -> Seq<char> {
    seq!['l', 'a', 't', 'e', 's', 't']
}

/// `[VERSION]`, or `[scope@vVERSION]` for a scope that is not the repository's root.
pub open spec fn version_prefix(version: Seq<char>, scope: Option<ScopeView>) -> Seq<char> {
    match scope {
        Some(s) => if !s.is_root {
            seq!['['] + s.name + seq!['@', 'v'] + version + seq![']']
        } else {
            seq!['['] + version + seq![']']
        },
        None => seq!['['] + version + seq![']'],
    }
}

/// What a selector looks for: with no name, the Unreleased section if it holds a category and
/// else the first other section; `latest`, the first section that is not Unreleased; any other
/// name, the first section whose heading begins with that version.
pub open spec fn selector(name: Option<Seq<char>>, scope: Option<ScopeView>) -> MatcherView {
    let u = unreleased_heading_spec(scope);
    match name {
        None => MatcherView::Heading2Filled(u),
        Some(n) => if crate::text::eq_ci(n, latest_word()) {
            MatcherView::Heading2Except(u)
        } else {
            MatcherView::Heading2Prefix(version_prefix(n, scope))
        },
    }
}

/// The section that a selector finds, without its heading.
pub open spec fn resolve_spec(root: NodeView, name: Option<Seq<char>>, scope: Option<ScopeView>) -> Option<
    NodeView,
> {
    match find_spec(root, selector(name, scope)) {
        Some(n) => Some(NodeView { data: None, ..n }),
        None => None,
    }
}

/// How many releases a listing shows.
#[derive(Debug, Clone, Copy, PartialEq, Eq, Structural)]
pub enum Amount {
    All,
    Value(usize),
}

/// `s` padded with spaces on the right to `w` characters.
pub open spec fn pad(s: Seq<char>, w: nat) -> Seq<char> {
    if s.len() < w {
        s + crate::markdown::tokens::spaces((w - s.len()) as nat)
    } else {
        s
    }
}

/// One line of a listing: `- label link`, the label padded to 15 characters.
pub open spec fn list_line(n: NodeView) -> Seq<char> {
    match n.data {
        Some(TokenView::Reference(name, link)) => seq!['-', ' '] + pad(name, 15) + seq![' '] + link,
        _ => Seq::empty(),
    }
}

pub open spec fn no_releases_text() -> Seq<char> {
    seq![
        'T', 'h', 'e', 'r', 'e', ' ', 'a', 'r', 'e', ' ', 'n', 'o', ' ', 'r', 'e', 'l', 'e', 'a',
        's', 'e', 's', ' ', 'y', 'e', 't', '.',
    ]
}

/// The listing of the first `amount` reference definitions, one per line.
pub open spec fn list_spec(root: NodeView, amount: Amount) -> Seq<char> {
    let refs = crate::markdown::ast::matching(root, MatcherView::AnyReference);
    let n = match amount {
        Amount::All => refs.len(),
        Amount::Value(x) => if x < refs.len() {
            x as nat
        } else {
            refs.len()
        },
    };
    let text = crate::markdown::ast::join_lines(Seq::new(n, |i: int| list_line(refs[i])));
    if text.len() == 0 {
        no_releases_text()
    } else {
        text
    }
}

fn write_list_line(out: &mut Vec<char>, n: &Node)
    ensures
        final(out)@ == old(out)@ + list_line(n@),
{
    let ghost o = out@;
    proof {
        lemma_node_view(n);
    }
    match &n.data {
        Some(MarkdownToken::Reference(name, link)) => {
            push_all(out, &['-', ' ']);
            let cs = chars_of(name.as_str());
            push_all(out, cs.as_slice());
            let mut k = cs.len();
            while k < 15
                invariant
                    cs@ == name@,
                    cs@.len() <= k <= 15 || (k == cs@.len() && k >= 15),
                    out@ == o + seq!['-', ' '] + cs@ + crate::markdown::tokens::spaces(
                        (k - cs@.len()) as nat,
                    ),
                decreases 15 - k,
            {
                out.push(' ');
                k += 1;
                assert(out@ =~= o + seq!['-', ' '] + cs@ + crate::markdown::tokens::spaces(
                    (k - cs@.len()) as nat,
                ));
            }
            out.push(' ');
            push_text(out, link);
            assert(out@ =~= o + list_line(n@));
        },
        _ => {
            assert(out@ =~= o + list_line(n@));
        },
    }
}

impl Changelog {
    /// The first reference definition that is not Unreleased's: the latest release.
    pub fn find_latest_version(&self) -> (r: Option<String>)
        ensures
            match find_spec(self.root@, MatcherView::Release) {
                Some(n) => r is Some && (n.data matches Some(TokenView::Reference(x, _)) && x
                    == r->Some_0@),
                None => r is None,
            },
    {
        match self.root.find_node(&Matcher::Release) {
            Some(node) => {
                proof {
                    lemma_node_view(node);
                }
                match &node.data {
                    Some(MarkdownToken::Reference(name, _)) => Some(name.clone()),
                    _ => {
                        proof {
                            crate::markdown::ast::lemma_find_holds(self.root@, MatcherView::Release);
                        }
                        None
                    },
                }
            },
            None => None,
        }
    }

    /// The section that `name` selects (see `selector`), without its heading.
    pub fn get_contents_of_section_scope(&self, name: Option<&String>, scope: Option<&Scope>) -> (r:
        Option<Node>)
        ensures
            match resolve_spec(
                self.root@,
                match name {
                    Some(n) => Some(n@),
                    None => None,
                },
                scope_view(scope),
            ) {
                Some(n) => r is Some && r->Some_0@ == n,
                None => r is None,
            },
    {
        let u = self.unreleased_heading(scope);
        let m = match name {
            None => Matcher::Heading2Filled(u),
            Some(n) => {
                let latest = chars_of("latest");
                proof {
                    reveal_strlit("latest");
                    assert(latest@ =~= latest_word());
                }
                if crate::text::eq_ignore_case(&chars_of(n.as_str()), &latest) {
                    Matcher::Heading2Except(u)
                } else {
                    let mut out: Vec<char> = Vec::new();
                    out.push('[');
                    match scope {
                        Some(s) => {
                            if !s.is_root {
                                push_text(&mut out, &s.name);
                                push_all(&mut out, &['@', 'v']);
                            }
                        },
                        None => {},
                    }
                    push_text(&mut out, n);
                    out.push(']');
                    assert(out@ =~= version_prefix(n@, scope_view(scope)));
                    Matcher::Heading2Prefix(string_of(out.as_slice()))
                }
            },
        };
        match self.root.find_node(&m) {
            Some(node) => {
                let mut copy = node.clone();
                proof {
                    lemma_node_view(&copy);
                }
                copy.data = None;
                proof {
                    lemma_node_view(&copy);
                    assert(copy@.children =~= node@.children);
                }
                Some(copy)
            },
            None => None,
        }
    }

    /// The section that `name` selects, outside any scope.
    pub fn get_contents_of_section(&self, name: &Option<String>) -> (r: Option<Node>)
        ensures
            match resolve_spec(
                self.root@,
                match name {
                    Some(n) => Some(n@),
                    None => None,
                },
                None,
            ) {
                Some(n) => r is Some && r->Some_0@ == n,
                None => r is None,
            },
    {
        self.get_contents_of_section_scope(name.as_ref(), None)
    }

    /// The first `amount` reference definitions, one per line, or a note that there are none.
    pub fn list(&self, amount: Amount) -> (r: String)
        ensures
            r@ == list_spec(self.root@, amount),
    {
        let refs = self.root.filter_nodes(&Matcher::AnyReference);
        let ghost rv = crate::markdown::ast::matching(self.root@, MatcherView::AnyReference);
        let n = match amount {
            Amount::All => refs.len(),
            Amount::Value(x) => if x < refs.len() {
                x
            } else {
                refs.len()
            },
        };
        let ghost lines = Seq::new(n as nat, |i: int| list_line(rv[i]));
        let mut out: Vec<char> = Vec::new();
        let mut i: usize = 0;
        while i < n
            invariant
                i <= n <= refs@.len(),
                crate::markdown::ast::ref_views(refs@) == rv,
                lines == Seq::new(n as nat, |i: int| list_line(rv[i])),
                out@ == crate::markdown::ast::join_lines(lines.subrange(0, i as int)),
            decreases n - i,
        {
            let ghost before = out@;
            if i > 0 {
                out.push('\n');
            }
            write_list_line(&mut out, refs[i]);
            proof {
                let prefix = lines.subrange(0, i + 1);
                assert(prefix.drop_last() =~= lines.subrange(0, i as int));
                assert(refs@[i as int]@ == rv[i as int]);
                if i == 0 {
                    assert(out@ =~= prefix[0]);
                } else {
                    assert(out@ =~= before + seq!['\n'] + prefix.last());
                }
            }
            i += 1;
        }
        assert(lines.subrange(0, i as int) =~= lines);
        if out.len() == 0 {
            let none = String::from_str("There are no releases yet.");
            proof {
                reveal_strlit("There are no releases yet.");
                assert(none@ =~= no_releases_text());
            }
            none
        } else {
            string_of(out.as_slice())
        }
    }
}

impl Amount {
    /// `all`, or a count written as `usize`'s `FromStr` accepts it.
    pub fn from_str(s: &str) -> (r: Result<Amount, String>)
        ensures
            s@ == seq!['a', 'l', 'l'] ==> r == Ok::<Amount, String>(Amount::All),
            s@ != seq!['a', 'l', 'l'] ==> match crate::semver::number_of(s@) {
                Some(v) => if v <= usize::MAX {
                    r == Ok::<Amount, String>(Amount::Value(v as usize))
                } else {
                    r is Err
                },
                None => r is Err,
            },
    {
        let cs = chars_of(s);
        if cs.len() == 3 && cs[0] == 'a' && cs[1] == 'l' && cs[2] == 'l' {
            assert(cs@ =~= seq!['a', 'l', 'l']);
            return Ok(Amount::All);
        }
        assert(s@ != seq!['a', 'l', 'l']);
        match crate::semver::parse_number(&cs, 0, cs.len()) {
            Some(v) => {
                assert(cs@.subrange(0, cs@.len() as int) =~= cs@);
                if v <= usize::MAX as u64 {
                    Ok(Amount::Value(v as usize))
                } else {
                    Err(String::from_str("Invalid amount"))
                }
            },
            None => {
                assert(cs@.subrange(0, cs@.len() as int) =~= cs@);
                Err(String::from_str("Invalid amount"))
            },
        }
    }
}

} // verus!

verus! {

/// `s` with every occurrence of `p` replaced by `r`, scanning from the left without overlaps
/// (an empty `p` replaces nothing).
pub open spec fn replace_all(s: Seq<char>, p: Seq<char>, r: Seq<char>) -> Seq<char>
    decreases s.len(),
{
    if p.len() == 0 || s.len() < p.len() {
        s
    } else if s.subrange(0, p.len() as int) == p {
        r + replace_all(s.subrange(p.len() as int, s.len() as int), p, r)
    } else {
        seq![s[0]] + replace_all(s.drop_first(), p, r)
    }
}

pub open spec fn head_word() -> Seq<char> {
    seq!['H', 'E', 'A', 'D']
}

/// The tag of a release: `vVERSION`, or `scope@vVERSION` for a scope that is not the root.
pub open spec fn release_tag(version: Seq<char>, scope: Option<ScopeView>) -> Seq<char> {
    match scope {
        Some(s) => if !s.is_root {
            s.name + seq!['@', 'v'] + version
        } else {
            seq!['v'] + version
        },
        None => seq!['v'] + version,
    }
}

/// The heading of a released section: `[VERSION] - date`, or `[scope@vVERSION] - date`.
pub open spec fn release_heading(version: Seq<char>, date: Seq<char>, scope: Option<ScopeView>) -> Seq<
    char,
> {
    let inner = match scope {
        Some(s) => if !s.is_root {
            s.name + seq!['@', 'v'] + version
        } else {
            version
        },
        None => version,
    };
    seq!['['] + inner + seq![']', ' ', '-', ' '] + date
}

/// A fresh Unreleased section holding the placeholder list.
pub open spec fn fresh_unreleased(u: Seq<char>) -> NodeView {
    NodeView {
        data: Some(TokenView::H2(u)),
        children: seq![list_of(seq![item_node(placeholder_text())])],
    }
}

pub open spec fn is_ref_named(n: NodeView, label: Seq<char>) -> bool {
    n.data matches Some(TokenView::Reference(x, _)) && crate::text::eq_ci(x, label)
}

pub open spec fn is_release_ref(n: NodeView) -> bool {
    n.data matches Some(TokenView::Reference(x, _)) && !crate::text::starts_with_ci(
        x,
        crate::markdown::ast::unreleased_label(),
    )
}

/// The index of the first of `cs[i..]` that is the reference definition `label`, or `cs.len()`.
pub open spec fn first_ref_named(cs: Seq<NodeView>, label: Seq<char>, i: int) -> int
    decreases cs.len() - i,
{
    if i >= cs.len() {
        cs.len() as int
    } else if is_ref_named(cs[i], label) {
        i
    } else {
        first_ref_named(cs, label, i + 1)
    }
}

/// The index of the first of `cs[i..]` that is a release's reference definition, or `cs.len()`.
pub open spec fn first_release_ref(cs: Seq<NodeView>, i: int) -> int
    decreases cs.len() - i,
{
    if i >= cs.len() {
        cs.len() as int
    } else if is_release_ref(cs[i]) {
        i
    } else {
        first_release_ref(cs, i + 1)
    }
}

/// The reference definitions after a release: Unreleased's link has the latest version
/// replaced by the new one, and a definition for the new version, whose link is Unreleased's
/// with `HEAD` replaced by the new tag, goes before the first release's definition.
pub open spec fn relink(
    root: NodeView,
    label: Seq<char>,
    latest: Seq<char>,
    version: Seq<char>,
    scope: Option<ScopeView>,
) -> NodeView {
    let cs = root.children;
    let k = first_ref_named(cs, label, 0);
    if k < cs.len() {
        let old_ref = cs[k];
        let (name, link) = match old_ref.data {
            Some(TokenView::Reference(a, b)) => (a, b),
            _ => (Seq::empty(), Seq::empty()),
        };
        let updated = NodeView {
            data: Some(TokenView::Reference(name, replace_all(link, latest, version))),
            ..old_ref
        };
        let cs2 = cs.update(k, updated);
        let added = leaf(
            TokenView::Reference(version, replace_all(link, head_word(), release_tag(version, scope))),
        );
        let pos = first_release_ref(cs2, 0);
        NodeView {
            children: if pos < cs2.len() {
                cs2.insert(pos, added)
            } else {
                cs2.push(added)
            },
            ..root
        }
    } else {
        root
    }
}

/// The tree after releasing `version` on `date`: Unreleased is renamed to the release's
/// heading, a fresh Unreleased section is placed after the title's description, and the
/// reference definitions are relinked. Without an Unreleased section nothing changes.
pub open spec fn release_spec(
    root: NodeView,
    version: Seq<char>,
    date: Seq<char>,
    scope: Option<ScopeView>,
) -> Result<NodeView, ChangelogError> {
    let u = unreleased_heading_spec(scope);
    let m = MatcherView::Heading2(u);
    match find_spec(root, m) {
        None => Ok(root),
        Some(sec) => match find_spec(root, MatcherView::Release) {
            Some(latest_ref) => {
                let latest = match latest_ref.data {
                    Some(TokenView::Reference(x, _)) => x,
                    _ => Seq::empty(),
                };
                let renamed = set_at(
                    root,
                    first_path(root, m),
                    NodeView { data: Some(TokenView::H2(release_heading(version, date, scope))), ..sec },
                );
                if title_ok(renamed) {
                    Ok(
                        relink(
                            insert_section(renamed, fresh_unreleased(u)),
                            u.subrange(1, u.len() - 1),
                            latest,
                            version,
                            scope,
                        ),
                    )
                } else {
                    Err(ChangelogError::MalformedTitle)
                }
            },
            None => Err(ChangelogError::MissingVersion),
        },
    }
}

pub fn starts_at(s: &Vec<char>, i: usize, p: &Vec<char>) -> (r: bool)
    requires
        i <= s@.len(),
    ensures
        r == (p@.len() <= s@.len() - i && s@.subrange(i as int, i + p@.len()) == p@),
{
    if p.len() > s.len() - i {
        return false;
    }
    let mut k: usize = 0;
    assert(s@.len() == s.len());
    while k < p.len()
        invariant
            s@.len() <= usize::MAX,
            i <= s@.len(),
            k <= p@.len() <= s@.len() - i,
            forall|j: int| 0 <= j < k ==> s@[i + j] == p@[j],
        decreases p@.len() - k,
    {
        if s[i + k] != p[k] {
            assert(s@.subrange(i as int, i + p@.len())[k as int] != p@[k as int]);
            return false;
        }
        k += 1;
    }
    assert(s@.subrange(i as int, i + p@.len()) =~= p@);
    true
}

/// `s` with every occurrence of `p` replaced by `r`.
pub fn replace_text(s: &str, p: &str, r: &str) -> (out: String)
    ensures
        out@ == replace_all(s@, p@, r@),
{
    let sc = chars_of(s);
    let pc = chars_of(p);
    let rc = chars_of(r);
    let mut out: Vec<char> = Vec::new();
    let mut i: usize = 0;
    assert(sc@.subrange(0, sc@.len() as int) =~= sc@);
    assert(out@ + sc@ =~= sc@);
    while i < sc.len()
        invariant
            i <= sc@.len(),
            sc@ == s@,
            pc@ == p@,
            rc@ == r@,
            out@ + replace_all(sc@.subrange(i as int, sc@.len() as int), pc@, rc@) == replace_all(
                sc@,
                pc@,
                rc@,
            ),
        decreases sc@.len() - i,
    {
        let ghost rest = sc@.subrange(i as int, sc@.len() as int);
        let ghost before = out@;
        if pc.len() > 0 && starts_at(&sc, i, &pc) {
            push_all(&mut out, rc.as_slice());
            proof {
                assert(rest.subrange(0, pc@.len() as int) =~= sc@.subrange(i as int, i + pc@.len()));
                assert(rest.subrange(pc@.len() as int, rest.len() as int) =~= sc@.subrange(
                    i + pc@.len(),
                    sc@.len() as int,
                ));
                assert(before + (rc@ + replace_all(
                    sc@.subrange(i + pc@.len(), sc@.len() as int),
                    pc@,
                    rc@,
                )) =~= out@ + replace_all(sc@.subrange(i + pc@.len(), sc@.len() as int), pc@, rc@));
            }
            i = i + pc.len();
        } else {
            out.push(sc[i]);
            proof {
                if pc@.len() > 0 && rest.len() >= pc@.len() {
                    assert(rest.subrange(0, pc@.len() as int) =~= sc@.subrange(i as int, i + pc@.len()));
                    assert(rest.drop_first() =~= sc@.subrange(i + 1, sc@.len() as int));
                    assert(before + (seq![sc@[i as int]] + replace_all(
                        sc@.subrange(i + 1, sc@.len() as int),
                        pc@,
                        rc@,
                    )) =~= out@ + replace_all(sc@.subrange(i + 1, sc@.len() as int), pc@, rc@));
                } else {
                    assert(replace_all(rest, pc@, rc@) == rest);
                    assert(rest.drop_first() =~= sc@.subrange(i + 1, sc@.len() as int));
                    lemma_replace_short(rest.drop_first(), pc@, rc@);
                    assert(before + rest =~= out@ + rest.drop_first());
                }
            }
            i += 1;
        }
    }
    assert(sc@.subrange(i as int, sc@.len() as int) =~= Seq::<char>::empty());
    assert(out@ =~= out@ + replace_all(Seq::<char>::empty(), pc@, rc@));
    string_of(out.as_slice())
}

proof fn lemma_replace_short(s: Seq<char>, p: Seq<char>, r: Seq<char>)
    requires
        p.len() == 0 || s.len() < p.len(),
    ensures
        replace_all(s, p, r) == s,
{
}

fn find_ref_named(cs: &Vec<Node>, label: &Vec<char>) -> (r: usize)
    ensures
        r == first_ref_named(crate::markdown::ast::node_views(cs@), label@, 0),
        r <= cs@.len(),
{
    let ghost v = crate::markdown::ast::node_views(cs@);
    let mut i: usize = 0;
    while i < cs.len()
        invariant
            i <= cs@.len(),
            v == crate::markdown::ast::node_views(cs@),
            first_ref_named(v, label@, i as int) == first_ref_named(v, label@, 0),
        decreases cs@.len() - i,
    {
        let hit = match &cs[i].data {
            Some(MarkdownToken::Reference(x, _)) => crate::text::eq_ignore_case(
                &chars_of(x.as_str()),
                label,
            ),
            _ => false,
        };
        proof {
            lemma_node_view(&cs[i as int]);
        }
        if hit {
            return i;
        }
        i += 1;
    }
    i
}

fn find_release_ref(cs: &Vec<Node>) -> (r: usize)
    ensures
        r == first_release_ref(crate::markdown::ast::node_views(cs@), 0),
        r <= cs@.len(),
{
    let ghost v = crate::markdown::ast::node_views(cs@);
    let mut i: usize = 0;
    while i < cs.len()
        invariant
            i <= cs@.len(),
            v == crate::markdown::ast::node_views(cs@),
            first_release_ref(v, i as int) == first_release_ref(v, 0),
        decreases cs@.len() - i,
    {
        let hit = Matcher::Release.test(&cs[i]);
        proof {
            lemma_node_view(&cs[i as int]);
        }
        if hit {
            return i;
        }
        i += 1;
    }
    i
}

/// Relinks the reference definitions at the root of `root`.
fn relink_refs(root: &mut Node, label: &Vec<char>, latest: &String, version: &String, scope: Option<&Scope>)
    ensures
        final(root)@ == relink(old(root)@, label@, latest@, version@, scope_view(scope)),
{
    proof {
        lemma_node_view(root);
        assert(crate::markdown::ast::node_views(root.children@) =~= root@.children);
    }
    let k = find_ref_named(&root.children, label);
    if k >= root.children.len() {
        return;
    }
    let ghost before = root.children@;
    let old_ref = root.children.remove(k);
    proof {
        lemma_node_view(&old_ref);
    }
    let (name, link) = match &old_ref.data {
        Some(MarkdownToken::Reference(a, b)) => (a.clone(), b.clone()),
        _ => (String::new(), String::new()),
    };
    let updated_link = replace_text(link.as_str(), latest.as_str(), version.as_str());
    let mut tag: Vec<char> = Vec::new();
    match scope {
        Some(s) => {
            if !s.is_root {
                push_text(&mut tag, &s.name);
                push_all(&mut tag, &['@', 'v']);
            } else {
                tag.push('v');
            }
        },
        None => {
            tag.push('v');
        },
    }
    push_text(&mut tag, version);
    assert(tag@ =~= release_tag(version@, scope_view(scope)));
    let head = String::from_str("HEAD");
    proof {
        reveal_strlit("HEAD");
        assert(head@ =~= head_word());
    }
    let new_link = replace_text(link.as_str(), head.as_str(), string_of(tag.as_slice()).as_str());
    let mut updated = old_ref;
    updated.data = Some(MarkdownToken::Reference(name, updated_link));
    proof {
        lemma_node_view(&updated);
        assert(updated@.children =~= old_ref@.children);
    }
    root.children.insert(k, updated);
    let added = Node::from_token(MarkdownToken::Reference(version.clone(), new_link));
    proof {
        lemma_node_view(root);
        assert(root.children@ =~= before.update(k as int, updated));
        assert(crate::markdown::ast::node_views(root.children@) =~= root@.children);
        assert(old_ref@ == old(root)@.children[k as int]);
        assert(root@.children =~= old(root)@.children.update(k as int, updated@));
        assert(root@.data == old(root)@.data);
    }
    let pos = find_release_ref(&root.children);
    if pos < root.children.len() {
        root.add_child_at(pos, added);
    } else {
        root.add_child(added);
    }
}

/// Relies on `chrono::Local::now`, with the result formatted as `%Y-%m-%d`: today's local
/// date. Nothing is promised of the value, which depends on the clock and the time zone.
#[verifier::external_body]
fn today() -> (r: String) {
    chrono::Local::now().format("%Y-%m-%d").to_string()
}

impl Changelog {
    /// Releases `version` on `date` (see `release_spec`). On an error the document is left as
    /// it was.
    pub fn release_on(&mut self, version: &crate::semver::SemVer, date: &str, scope: Option<&Scope>) -> (r:
        Result<(), ChangelogError>)
        ensures
            match release_spec(
                old(self).root@,
                crate::semver::semver_text(version@),
                date@,
                scope_view(scope),
            ) {
                Ok(t) => r is Ok && final(self).root@ == t,
                Err(e) => r == Err::<(), ChangelogError>(e) && final(self).root@ == old(self).root@,
            },
    {
        let u = self.unreleased_heading(scope);
        let m = Matcher::Heading2(u.clone());
        let p = match self.root.find_path(&m) {
            Some(p) => p,
            None => {
                return Ok(());
            },
        };
        let latest = match self.find_latest_version() {
            Some(l) => l,
            None => {
                return Err(ChangelogError::MissingVersion);
            },
        };
        let v = version.to_string();
        let mut heading: Vec<char> = Vec::new();
        heading.push('[');
        match scope {
            Some(s) => {
                if !s.is_root {
                    push_text(&mut heading, &s.name);
                    push_all(&mut heading, &['@', 'v']);
                }
            },
            None => {},
        }
        push_text(&mut heading, &v);
        push_all(&mut heading, &[']', ' ', '-', ' ']);
        let dc = chars_of(date);
        push_all(&mut heading, dc.as_slice());
        assert(heading@ =~= release_heading(v@, date@, scope_view(scope)));
        let mut work = Changelog { root: self.root.clone() };
        proof {
            assert(p@.subrange(0, p@.len() as int) =~= p@);
        }
        let mut sec = work.root.put_at(&p, 0, Node::empty());
        sec.rename_heading(string_of(heading.as_slice()).as_str());
        proof {
            lemma_set_get(self.root@, p@, NodeView { data: None, children: Seq::empty() });
            crate::markdown::ast::lemma_find_holds(self.root@, m@);
            assert(sec@ == (NodeView {
                data: Some(TokenView::H2(release_heading(v@, date@, scope_view(scope)))),
                ..find_spec(self.root@, m@)->Some_0
            }));
        }
        let _ = work.root.put_at(&p, 0, sec);
        if !work.title_ok() {
            return Err(ChangelogError::MalformedTitle);
        }
        let mut fresh = Node::from_token(MarkdownToken::H2(u.clone()));
        let placeholder = String::from_str("Nothing yet!");
        proof {
            reveal_strlit("Nothing yet!");
            assert(placeholder@ =~= placeholder_text());
        }
        fresh.add_child(new_list(placeholder.as_str()));
        assert(fresh@.children =~= seq![list_of(seq![item_node(placeholder_text())])]);
        work.insert_in_title(fresh);
        let uc = chars_of(u.as_str());
        let label = slice_chars(&uc, 1, uc.len() - 1);
        relink_refs(&mut work.root, &label, &latest, &v, scope);
        self.root = work.root;
        Ok(())
    }

    /// Releases `version` today (see `release_on`).
    pub fn release(&mut self, version: &crate::semver::SemVer, scope: Option<&Scope>) -> (r: Result<
        (),
        ChangelogError,
    >)
        ensures
            exists|date: Seq<char>|
                match #[trigger] release_spec(
                    old(self).root@,
                    crate::semver::semver_text(version@),
                    date,
                    scope_view(scope),
                ) {
                    Ok(t) => r is Ok && final(self).root@ == t,
                    Err(e) => r == Err::<(), ChangelogError>(e) && final(self).root@ == old(
                        self,
                    ).root@,
                },
    {
        let date = today();
        self.release_on(version, date.as_str(), scope)
    }
}

fn slice_chars(s: &Vec<char>, a: usize, e: usize) -> (r: Vec<char>)
    requires
        a <= e <= s@.len(),
    ensures
        r@ == s@.subrange(a as int, e as int),
{
    let mut r: Vec<char> = Vec::new();
    let mut i = a;
    while i < e
        invariant
            a <= i <= e <= s@.len(),
            r@ == s@.subrange(a as int, i as int),
        decreases e - i,
    {
        r.push(s[i]);
        i += 1;
        assert(r@ =~= s@.subrange(a as int, i as int));
    }
    r
}

} // verus!

verus! {

/// `sec` after adding each of `items` in turn to the category `name`.
pub open spec fn with_items(sec: NodeView, name: Seq<char>, items: Seq<Seq<char>>) -> NodeView
    decreases items.len(),
{
    if items.len() == 0 {
        sec
    } else {
        with_item(with_items(sec, name, items.drop_last()), name, items.last())
    }
}

/// Adding one or more items, one call at a time, to an Unreleased section that holds nothing
/// but the placeholder list (or nothing at all) leaves one category holding one list with
/// exactly those items, in call order; the placeholder is gone.
pub proof fn lemma_items_accumulate(sec: NodeView, name: Seq<char>, items: Seq<Seq<char>>)
    requires
        sec.children == seq![list_of(seq![item_node(placeholder_text())])] || sec.children.len()
            == 0,
        items.len() >= 1,
    ensures
        with_items(sec, name, items) == (NodeView {
            children: seq![
                NodeView {
                    data: Some(TokenView::H3(name)),
                    children: seq![list_of(items.map_values(|t: Seq<char>| item_node(t)))],
                },
            ],
            ..sec
        }),
    decreases items.len(),
{
    let expected_list = list_of(items.map_values(|t: Seq<char>| item_node(t)));
    if items.len() == 1 {
        assert(items.drop_last().len() == 0);
        assert(with_items(sec, name, items.drop_last()) == sec);
        let c0 = sec.children;
        let p = first_placeholder(c0, 0);
        let cs = if p < c0.len() {
            c0.remove(p)
        } else {
            c0
        };
        assert(cs =~= Seq::<NodeView>::empty());
        assert(items.map_values(|t: Seq<char>| item_node(t)) =~= seq![item_node(items.last())]);
        assert(cs.push(new_category(name, items.last())) =~= seq![
            NodeView { data: Some(TokenView::H3(name)), children: seq![expected_list] },
        ]);
    } else {
        let prev = items.drop_last();
        lemma_items_accumulate(sec, name, prev);
        let s = with_items(sec, name, prev);
        let prev_list = list_of(prev.map_values(|t: Seq<char>| item_node(t)));
        let cat = NodeView { data: Some(TokenView::H3(name)), children: seq![prev_list] };
        assert(s.children == seq![cat]);
        assert(!is_placeholder_list(s.children[0]));
        assert(first_placeholder(s.children, 1) == 1);
        assert(first_placeholder(s.children, 0) == 1);
        assert(crate::text::eq_ci(name, name));
        assert(first_h3_named(s.children, name, 0) == 0);
        assert(first_list(cat.children, 0) == 0);
        assert(prev_list.children.push(item_node(items.last())) =~= expected_list.children);
        assert(cat.children.update(0, NodeView {
            children: prev_list.children.push(item_node(items.last())),
            ..prev_list
        }) =~= seq![expected_list]);
        assert(s.children.update(0, category_with_item(cat, items.last())) =~= seq![
            NodeView { data: Some(TokenView::H3(name)), children: seq![expected_list] },
        ]);
    }
}

/// Every Unreleased section headed `u` in the tree `n` holds no level-3 heading.
pub open spec fn unreleased_without_categories(n: NodeView, u: Seq<char>) -> bool
    decreases n, 0int,
{
    &&& (crate::markdown::ast::holds(MatcherView::Heading2(u), n) ==> crate::markdown::ast::h3s(
        n,
    ).len() == 0)
    &&& unreleased_without_categories_list(n.children, 0, u)
}

pub open spec fn unreleased_without_categories_list(cs: Seq<NodeView>, i: int, u: Seq<char>) -> bool
    decreases cs, cs.len() - i,
{
    if 0 <= i < cs.len() {
        unreleased_without_categories(cs[i], u) && unreleased_without_categories_list(cs, i + 1, u)
    } else {
        true
    }
}

proof fn lemma_filled_is_except(n: NodeView, u: Seq<char>)
    requires
        unreleased_without_categories(n, u),
    ensures
        crate::markdown::ast::matching(n, MatcherView::Heading2Filled(u))
            == crate::markdown::ast::matching(n, MatcherView::Heading2Except(u)),
    decreases n, 0int,
{
    lemma_filled_is_except_list(n.children, 0, u);
}

proof fn lemma_filled_is_except_list(cs: Seq<NodeView>, i: int, u: Seq<char>)
    requires
        unreleased_without_categories_list(cs, i, u),
    ensures
        crate::markdown::ast::matching_list(cs, i, MatcherView::Heading2Filled(u))
            == crate::markdown::ast::matching_list(cs, i, MatcherView::Heading2Except(u)),
    decreases cs, cs.len() - i,
{
    if 0 <= i < cs.len() {
        lemma_filled_is_except(cs[i], u);
        lemma_filled_is_except_list(cs, i + 1, u);
    }
}

/// When the Unreleased section of `scope` holds no category, asking for the next-or-latest
/// section gives what `latest` gives: the first section that is not Unreleased.
pub proof fn lemma_resolver_priority(root: NodeView, scope: Option<ScopeView>)
    requires
        unreleased_without_categories(root, unreleased_heading_spec(scope)),
    ensures
        resolve_spec(root, None, scope) == resolve_spec(root, Some(latest_word()), scope),
        resolve_spec(root, None, scope) == match find_spec(
            root,
            MatcherView::Heading2Except(unreleased_heading_spec(scope)),
        ) {
            Some(n) => Some(NodeView { data: None, ..n }),
            None => None,
        },
{
    let u = unreleased_heading_spec(scope);
    lemma_filled_is_except(root, u);
    assert(crate::text::eq_ci(latest_word(), latest_word()));
}

} // verus!
