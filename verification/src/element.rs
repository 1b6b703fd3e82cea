//! Graphic elements: a tree of tags, attributes and children, and its markup.

use crate::text::{
    lemma_name_order_total, lemma_name_order_transitive, name_before, order_of_names, NameOrder,
};
use vstd::prelude::*;
use vstd::string::*;

verus! {

/// An attribute as it is handed in: its name and its value.
pub type HTMLAttr<'a> = (&'a str, String);

/// A child of an element: a piece of text or another element.
pub enum Node {
    Text(String),
    Element(HTMLElement),
}

/// An element: a tag, attributes and children. An attribute name occurs
/// once, and the attributes stand in the order of their names.
pub struct HTMLElement {
    tag: String,
    attrs: Vec<(String, String)>,
    body: Vec<Node>,
}

/// What a child is, as plain text and plain elements.
pub ghost enum NodeView {
    Text(Seq<char>),
    Element(ElementView),
}

/// What an element is: its tag, its attributes as pairs of name and value,
/// and its children, each in order.
pub ghost struct ElementView {
    pub tag: Seq<char>,
    pub attrs: Seq<(Seq<char>, Seq<char>)>,
    pub body: Seq<NodeView>,
}

/// Attributes as they are handed in, as pairs of name and value.
pub open spec fn attr_views(attrs: Seq<HTMLAttr>) -> Seq<(Seq<char>, Seq<char>)> {
    Seq::new(attrs.len(), |i: int| (attrs[i].0@, attrs[i].1@))
}

/// The attribute names stand in strictly ascending order.
pub open spec fn names_ascending(attrs: Seq<(Seq<char>, Seq<char>)>) -> bool {
    forall|i: int, j: int| 0 <= i < j < attrs.len() ==> name_before(attrs[i].0, attrs[j].0)
}

/// The first position whose attribute name does not come before `name`; the
/// number of attributes if every name comes before it.
pub open spec fn first_not_before(attrs: Seq<(Seq<char>, Seq<char>)>, name: Seq<char>) -> int
    decreases attrs.len(),
{
    if attrs.len() == 0 {
        0
    } else if !name_before(attrs[0].0, name) {
        0
    } else {
        1 + first_not_before(attrs.drop_first(), name)
    }
}

/// The attributes after `name` was set to `value`: the value replaces that of
/// an attribute of the same name, or the pair enters at its place in the
/// order of names.
pub open spec fn with_attr(
    attrs: Seq<(Seq<char>, Seq<char>)>,
    name: Seq<char>,
    value: Seq<char>,
) -> Seq<(Seq<char>, Seq<char>)> {
    let p = first_not_before(attrs, name);
    if p < attrs.len() && attrs[p].0 == name {
        attrs.update(p, (name, value))
    } else {
        attrs.insert(p, (name, value))
    }
}

/// The attributes after each pair of `more` was set, in order.
pub open spec fn with_attrs(
    attrs: Seq<(Seq<char>, Seq<char>)>,
    more: Seq<(Seq<char>, Seq<char>)>,
) -> Seq<(Seq<char>, Seq<char>)>
    decreases more.len(),
{
    if more.len() == 0 {
        attrs
    } else {
        with_attr(with_attrs(attrs, more.drop_last()), more.last().0, more.last().1)
    }
}

/// An element without children, with the given attributes.
pub open spec fn element(tag: Seq<char>, attrs: Seq<(Seq<char>, Seq<char>)>) -> ElementView {
    ElementView { tag, attrs: with_attrs(Seq::empty(), attrs), body: Seq::empty() }
}

impl ElementView {
    /// The element with one more child, an element.
    pub open spec fn child(self, el: ElementView) -> ElementView {
        ElementView { body: self.body.push(NodeView::Element(el)), ..self }
    }

    /// The element with one more child, a piece of text.
    pub open spec fn text(self, text: Seq<char>) -> ElementView {
        ElementView { body: self.body.push(NodeView::Text(text)), ..self }
    }
}

/// The markup of attributes: each as a space, the name, `="`, the value and `"`.
pub open spec fn attrs_markup(attrs: Seq<(Seq<char>, Seq<char>)>) -> Seq<char>
    decreases attrs.len(),
{
    if attrs.len() == 0 {
        Seq::empty()
    } else {
        attrs_markup(attrs.drop_last()) + " "@ + attrs.last().0 + "=\""@ + attrs.last().1 + "\""@
    }
}

/// The markup of children, one after the other.
pub open spec fn nodes_markup(nodes: Seq<NodeView>) -> Seq<char>
    decreases nodes, 0nat,
{
    if nodes.len() == 0 {
        Seq::empty()
    } else {
        nodes_markup(nodes.drop_last()) + node_markup(nodes.last())
    }
}

/// The markup of a child: text as it is, an element as its markup.
pub open spec fn node_markup(node: NodeView) -> Seq<char>
    decreases node, 0nat,
{
    match node {
        NodeView::Text(text) => text,
        NodeView::Element(el) => element_markup(el),
    }
}

/// The markup of an element: the opening tag with the attributes, the
/// children, the closing tag.
pub open spec fn element_markup(el: ElementView) -> Seq<char>
    decreases el, 1nat,
{
    "<"@ + el.tag + attrs_markup(el.attrs) + ">"@ + nodes_markup(el.body) + "</"@ + el.tag + ">"@
}

impl View for Node {
    type V = NodeView;

    closed spec fn view(&self) -> NodeView
        decreases self,
    {
        match self {
            Node::Text(text) => NodeView::Text(text@),
            Node::Element(el) => NodeView::Element(el.view()),
        }
    }
}

impl View for HTMLElement {
    type V = ElementView;

    closed spec fn view(&self) -> ElementView
        decreases self,
    {
        ElementView {
            tag: self.tag@,
            attrs: Seq::new(self.attrs.len() as nat, |i: int| (self.attrs[i].0@, self.attrs[i].1@)),
            body: Seq::new(
                self.body.len() as nat,
                |i: int|
                    if 0 <= i < self.body.len() {
                        self.body[i].view()
                    } else {
                        NodeView::Text(Seq::empty())
                    },
            ),
        }
    }
}

/// `first_not_before` splits the names that come before `name` from the rest.
pub proof fn lemma_first_not_before(attrs: Seq<(Seq<char>, Seq<char>)>, name: Seq<char>)
    ensures
        0 <= first_not_before(attrs, name) <= attrs.len(),
        forall|j: int| 0 <= j < first_not_before(attrs, name) ==> name_before(attrs[j].0, name),
        first_not_before(attrs, name) < attrs.len() ==> !name_before(
            attrs[first_not_before(attrs, name)].0,
            name,
        ),
    decreases attrs.len(),
{
    if attrs.len() > 0 && name_before(attrs[0].0, name) {
        let tail = attrs.drop_first();
        lemma_first_not_before(tail, name);
        assert forall|j: int| 0 <= j < first_not_before(attrs, name) implies name_before(
            attrs[j].0,
            name,
        ) by {
            if j > 0 {
                assert(attrs[j] == tail[j - 1]);
            }
        }
        if first_not_before(attrs, name) < attrs.len() {
            assert(attrs[first_not_before(attrs, name)] == tail[first_not_before(tail, name)]);
        }
    }
}

/// A position that splits the names as `first_not_before` does is that position.
pub proof fn lemma_first_not_before_is(attrs: Seq<(Seq<char>, Seq<char>)>, name: Seq<char>, p: int)
    requires
        0 <= p <= attrs.len(),
        forall|j: int| 0 <= j < p ==> name_before(attrs[j].0, name),
        p < attrs.len() ==> !name_before(attrs[p].0, name),
    ensures
        first_not_before(attrs, name) == p,
{
    lemma_first_not_before(attrs, name);
    let q = first_not_before(attrs, name);
    if q < p {
        assert(name_before(attrs[q].0, name));
    } else if p < q {
        assert(name_before(attrs[p].0, name));
    }
}

/// Setting an attribute keeps the names in ascending order, gives the name
/// its new value, and leaves every other attribute as it was: the last value
/// set for a name is the one that stays.
pub proof fn lemma_with_attr(attrs: Seq<(Seq<char>, Seq<char>)>, name: Seq<char>, value: Seq<char>)
    requires
        names_ascending(attrs),
    ensures
        names_ascending(with_attr(attrs, name, value)),
        with_attr(attrs, name, value).contains((name, value)),
        forall|i: int|
            0 <= i < attrs.len() && attrs[i].0 != name ==> with_attr(attrs, name, value).contains(
                #[trigger] attrs[i],
            ),
        forall|i: int|
            0 <= i < with_attr(attrs, name, value).len() ==> {
                let pair = #[trigger] with_attr(attrs, name, value)[i];
                pair == (name, value) || (pair.0 != name && attrs.contains(pair))
            },
{
    let p = first_not_before(attrs, name);
    let set = with_attr(attrs, name, value);
    lemma_first_not_before(attrs, name);
    assert forall|j: int| p <= j < attrs.len() && attrs[j].0 != name implies name_before(
        name,
        attrs[j].0,
    ) by {
        lemma_name_order_total(attrs[p].0, name);
        if j > p {
            if attrs[p].0 != name {
                lemma_name_order_transitive(name, attrs[p].0, attrs[j].0);
            }
        } else {
            lemma_name_order_total(attrs[j].0, name);
        }
    }
    assert forall|j: int| 0 <= j < attrs.len() && attrs[j].0 == name implies j == p by {
        lemma_name_order_total(attrs[j].0, name);
        if j > p {
            lemma_name_order_total(attrs[p].0, name);
            if attrs[p].0 != name {
                lemma_name_order_transitive(name, attrs[p].0, attrs[j].0);
            }
        }
    }
    if p < attrs.len() && attrs[p].0 == name {
        assert(set[p] == (name, value));
        assert forall|i: int| 0 <= i < attrs.len() && attrs[i].0 != name implies set.contains(
            #[trigger] attrs[i],
        ) by {
            assert(set[i] == attrs[i]);
        }
        assert forall|i: int| 0 <= i < set.len() implies {
            let pair = #[trigger] set[i];
            pair == (name, value) || (pair.0 != name && attrs.contains(pair))
        } by {
            if i != p {
                assert(set[i] == attrs[i]);
            }
        }
    } else {
        assert(set[p] == (name, value));
        assert forall|i: int| 0 <= i < attrs.len() && attrs[i].0 != name implies set.contains(
            #[trigger] attrs[i],
        ) by {
            if i < p {
                assert(set[i] == attrs[i]);
            } else {
                assert(set[i + 1] == attrs[i]);
            }
        }
        assert forall|i: int| 0 <= i < set.len() implies {
            let pair = #[trigger] set[i];
            pair == (name, value) || (pair.0 != name && attrs.contains(pair))
        } by {
            if i < p {
                assert(set[i] == attrs[i]);
                lemma_name_order_total(attrs[i].0, name);
            } else if i > p {
                assert(set[i] == attrs[i - 1]);
            }
        }
        assert forall|i: int, j: int| 0 <= i < j < set.len() implies name_before(
            set[i].0,
            set[j].0,
        ) by {
            if i < p {
                assert(set[i] == attrs[i]);
            } else if i > p {
                assert(set[i] == attrs[i - 1]);
            }
            if j < p {
                assert(set[j] == attrs[j]);
            } else if j > p {
                assert(set[j] == attrs[j - 1]);
            }
        }
    }
}

/// Setting attributes one after the other keeps the names in ascending order.
pub proof fn lemma_with_attrs(attrs: Seq<(Seq<char>, Seq<char>)>, more: Seq<(Seq<char>, Seq<char>)>)
    requires
        names_ascending(attrs),
    ensures
        names_ascending(with_attrs(attrs, more)),
    decreases more.len(),
{
    if more.len() > 0 {
        lemma_with_attrs(attrs, more.drop_last());
        lemma_with_attr(with_attrs(attrs, more.drop_last()), more.last().0, more.last().1);
    }
}

/// Owned attributes as pairs of name and value.
pub open spec fn pair_views(attrs: Seq<(String, String)>) -> Seq<(Seq<char>, Seq<char>)> {
    Seq::new(attrs.len(), |i: int| (attrs[i].0@, attrs[i].1@))
}

fn set_attr(attrs: &mut Vec<(String, String)>, name: &str, value: String)
    ensures
        pair_views(final(attrs)@) == with_attr(pair_views(old(attrs)@), name@, value@),
{
    let ghost before = pair_views(attrs@);
    let mut p: usize = 0;
    let mut found = false;
    while p < attrs.len()
        invariant_except_break
            !found,
        invariant
            p <= attrs.len(),
            pair_views(attrs@) == before,
            forall|j: int| 0 <= j < p ==> name_before(before[j].0, name@),
        ensures
            p < attrs.len() ==> !name_before(before[p as int].0, name@),
            found <==> p < attrs.len() && before[p as int].0 == name@,
        decreases attrs.len() - p,
    {
        let order = order_of_names(attrs[p].0.as_str(), name);
        assert(before[p as int].0 == attrs@[p as int].0@);
        if order == NameOrder::Same {
            proof {
                lemma_name_order_total(name@, name@);
            }
            found = true;
            break ;
        }
        if order == NameOrder::After {
            proof {
                lemma_name_order_total(before[p as int].0, name@);
            }
            break ;
        }
        p += 1;
    }
    proof {
        lemma_first_not_before_is(before, name@, p as int);
    }
    if found {
        attrs.set(p, (name.to_owned(), value));
        assert(pair_views(attrs@) =~= before.update(p as int, (name@, value@)));
    } else {
        attrs.insert(p, (name.to_owned(), value));
        assert(pair_views(attrs@) =~= before.insert(p as int, (name@, value@)));
    }
}

impl HTMLElement {
    #[verifier::type_invariant]
    spec fn names_in_order(self) -> bool {
        names_ascending(self@.attrs)
    }

    /// An element without children, with the given attributes.
    pub fn new(tag: &str, attrs: &[HTMLAttr]) -> (el: HTMLElement)
        ensures
            el@ == element(tag@, attr_views(attrs@)),
            names_ascending(el@.attrs),
    {
        let mut el = HTMLElement { tag: tag.to_owned(), attrs: Vec::new(), body: Vec::new() };
        assert(el@.attrs =~= Seq::empty());
        assert(el@.body =~= Seq::empty());
        el.attrs(attrs);
        el
    }

    /// Sets the given attributes, one after the other: a value replaces that
    /// of an attribute of the same name, and a new name enters at its place
    /// in the order of names.
    pub fn attrs(&mut self, attrs: &[HTMLAttr])
        ensures
            final(self)@ == (ElementView {
                attrs: with_attrs(old(self)@.attrs, attr_views(attrs@)),
                ..old(self)@
            }),
            names_ascending(final(self)@.attrs),
    {
        let ghost before = self@;
        let ghost more = attr_views(attrs@);
        proof {
            use_type_invariant(&*self);
            lemma_with_attrs(before.attrs, more);
        }
        let mut own: Vec<(String, String)> = Vec::new();
        assert(pair_views(own@) =~= Seq::empty());
        core::mem::swap(&mut self.attrs, &mut own);
        assert(pair_views(own@) =~= before.attrs);
        let mut i: usize = 0;
        while i < attrs.len()
            invariant
                i <= attrs.len(),
                more == attr_views(attrs@),
                pair_views(own@) == with_attrs(before.attrs, more.subrange(0, i as int)),
            decreases attrs.len() - i,
        {
            proof {
                assert(more.subrange(0, i + 1).drop_last() =~= more.subrange(0, i as int));
                assert(more.subrange(0, i + 1).last() == more[i as int]);
            }
            set_attr(&mut own, attrs[i].0, attrs[i].1.clone());
            i += 1;
        }
        proof {
            assert(more.subrange(0, more.len() as int) =~= more);
        }
        self.attrs = own;
        assert(self@.attrs =~= with_attrs(before.attrs, more));
        assert(self@.body =~= before.body);
    }

    /// Appends an element to the children.
    pub fn append_child(&mut self, el: HTMLElement)
        ensures
            final(self)@ == old(self)@.child(el@),
    {
        let ghost before = self@;
        proof {
            use_type_invariant(&*self);
        }
        let mut body: Vec<Node> = Vec::new();
        core::mem::swap(&mut self.body, &mut body);
        body.push(Node::Element(el));
        self.body = body;
        assert(self@.body =~= before.body.push(NodeView::Element(el@)));
        assert(self@.attrs =~= before.attrs);
    }

    /// Appends a piece of text to the children.
    pub fn append_text(&mut self, text: String)
        ensures
            final(self)@ == old(self)@.text(text@),
    {
        let ghost before = self@;
        proof {
            use_type_invariant(&*self);
        }
        let mut body: Vec<Node> = Vec::new();
        core::mem::swap(&mut self.body, &mut body);
        body.push(Node::Text(text));
        self.body = body;
        assert(self@.body =~= before.body.push(NodeView::Text(text@)));
        assert(self@.attrs =~= before.attrs);
    }

    /// Writes the element as markup: the opening tag with the attributes,
    /// the children one after the other, the closing tag.
    pub fn to_string(&self) -> (markup: String)
        ensures
            markup@ == element_markup(self@),
        decreases self,
    {
        let mut res = String::from_str("<");
        res.append(self.tag.as_str());
        let ghost open = res@;
        let mut i: usize = 0;
        while i < self.attrs.len()
            invariant
                i <= self.attrs.len(),
                res@ == open + attrs_markup(self@.attrs.subrange(0, i as int)),
            decreases self.attrs.len() - i,
        {
            let ghost so_far = self@.attrs.subrange(0, i as int);
            proof {
                let next = self@.attrs.subrange(0, i + 1);
                assert(next.drop_last() =~= so_far);
                assert(next.last() == (self.attrs[i as int].0@, self.attrs[i as int].1@));
            }
            res.append(" ");
            res.append(self.attrs[i].0.as_str());
            res.append("=\"");
            res.append(self.attrs[i].1.as_str());
            res.append("\"");
            assert(res@ =~= open + (attrs_markup(so_far) + " "@ + self.attrs[i as int].0@ + "=\""@
                + self.attrs[i as int].1@ + "\""@));
            i += 1;
        }
        proof {
            assert(self@.attrs.subrange(0, self@.attrs.len() as int) =~= self@.attrs);
        }
        res.append(">");
        let ghost head = res@;
        let mut k: usize = 0;
        while k < self.body.len()
            invariant
                k <= self.body.len(),
                res@ == head + nodes_markup(self@.body.subrange(0, k as int)),
            decreases self.body.len() - k,
        {
            let ghost so_far = self@.body.subrange(0, k as int);
            proof {
                let next = self@.body.subrange(0, k + 1);
                assert(next.drop_last() =~= so_far);
                assert(next.last() == self.body[k as int]@);
            }
            match &self.body[k] {
                Node::Text(text) => {
                    res.append(text.as_str());
                },
                Node::Element(el) => {
                    let inner = el.to_string();
                    res.append(inner.as_str());
                },
            }
            assert(res@ =~= head + (nodes_markup(so_far) + node_markup(self.body[k as int]@)));
            k += 1;
        }
        proof {
            assert(self@.body.subrange(0, self@.body.len() as int) =~= self@.body);
        }
        res.append("</");
        res.append(self.tag.as_str());
        res.append(">");
        res
    }

    /// The tag of the element.
    pub fn tag(&self) -> (tag: &str)
        ensures
            tag@ == self@.tag,
    {
        self.tag.as_str()
    }

    /// The value of the attribute `name`, if the element has one.
    pub fn attr(&self, name: &str) -> (value: Option<&String>)
        ensures
            value is Some <==> exists|i: int|
                0 <= i < self@.attrs.len() && (#[trigger] self@.attrs[i]).0 == name@,
            value matches Some(text) ==> self@.attrs.contains((name@, text@)),
    {
        let mut i: usize = 0;
        while i < self.attrs.len()
            invariant
                i <= self.attrs.len(),
                forall|j: int| 0 <= j < i ==> (#[trigger] self@.attrs[j]).0 != name@,
            decreases self.attrs.len() - i,
        {
            assert(self@.attrs[i as int] == (self.attrs[i as int].0@, self.attrs[i as int].1@));
            if order_of_names(self.attrs[i].0.as_str(), name) == NameOrder::Same {
                return Some(&self.attrs[i].1);
            }
            i += 1;
        }
        None
    }

    /// The children of the element, in order.
    pub fn body(&self) -> (body: &Vec<Node>)
        ensures
            body@.len() == self@.body.len(),
            forall|i: int| 0 <= i < body@.len() ==> (#[trigger] body@[i])@ == self@.body[i],
    {
        &self.body
    }
}

} // verus!
