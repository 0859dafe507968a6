use vstd::prelude::*;

use crate::ical::Attr;
use crate::ical::lemma_find_attr;
use crate::ical_model::AttrSpec;
use crate::ical_model::find_attr;
use crate::strutil::eq_str;
use crate::views::attrs_view;

verus! {

/// A named element of a response document: its child elements in order, its
/// text value, and its attributes. The element tree itself is produced by an
/// outside reader; this layer only navigates it.
#[derive(Debug)]
pub struct Element {
    pub name: String,
    pub text: String,
    pub attributes: Vec<Attr>,
    pub children: Vec<Element>,
}

#[verifier::ext_equal]
pub ghost struct ElementSpec {
    pub name: Seq<char>,
    pub text: Seq<char>,
    pub attrs: Seq<AttrSpec>,
    pub children: Seq<ElementSpec>,
}

pub open spec fn empty_element() -> ElementSpec {
    ElementSpec { name: Seq::empty(), text: Seq::empty(), attrs: Seq::empty(), children: Seq::empty() }
}

/// The model value of an element.
pub open spec fn el_view(e: Element) -> ElementSpec
    decreases e,
{
    ElementSpec {
        name: e.name@,
        text: e.text@,
        attrs: attrs_view(e.attributes@),
        children: Seq::new(
            e.children@.len(),
            |i: int|
                if 0 <= i < e.children@.len() {
                    el_view(e.children@[i])
                } else {
                    empty_element()
                },
        ),
    }
}

pub open spec fn els_view(s: Seq<Element>) -> Seq<ElementSpec> {
    Seq::new(s.len(), |i: int| el_view(s[i]))
}

pub broadcast proof fn lemma_els_view_len(s: Seq<Element>)
    ensures
        (#[trigger] els_view(s)).len() == s.len(),
{
}

pub broadcast proof fn lemma_els_view_index(s: Seq<Element>, i: int)
    requires
        0 <= i < s.len(),
    ensures
        #[trigger] els_view(s)[i] == el_view(s[i]),
{
}

pub broadcast proof fn lemma_el_view_fields(e: Element)
    ensures
        (#[trigger] el_view(e)).name == e.name@,
        el_view(e).text == e.text@,
        el_view(e).attrs == attrs_view(e.attributes@),
        el_view(e).children == els_view(e.children@),
{
    assert(el_view(e).children =~= els_view(e.children@));
}

pub broadcast group group_xml_views {
    lemma_els_view_len,
    lemma_els_view_index,
    lemma_el_view_fields,
}

/// Index of the first child element with the given name, or the length.
pub open spec fn find_elem(cs: Seq<ElementSpec>, name: Seq<char>) -> int
    decreases cs.len(),
{
    if cs.len() == 0 {
        0
    } else if cs[0].name == name {
        0
    } else {
        1 + find_elem(cs.drop_first(), name)
    }
}

pub proof fn lemma_find_elem(cs: Seq<ElementSpec>, name: Seq<char>)
    ensures
        0 <= find_elem(cs, name) <= cs.len(),
        find_elem(cs, name) < cs.len() ==> cs[find_elem(cs, name)].name == name,
        forall|j: int| 0 <= j < find_elem(cs, name) ==> cs[j].name != name,
    decreases cs.len(),
{
    if cs.len() > 0 && cs[0].name != name {
        lemma_find_elem(cs.drop_first(), name);
        assert forall|j: int| 0 <= j < find_elem(cs, name) implies cs[j].name != name by {
            if j > 0 {
                assert(cs.drop_first()[j - 1] == cs[j]);
                assert(cs.drop_first()[j - 1].name != name);
            }
        }
    }
}

/// The child found at each step of a fixed path, or nothing when a step has
/// no child of that name.
pub open spec fn descend(el: ElementSpec, path: Seq<Seq<char>>) -> Option<ElementSpec>
    decreases path.len(),
{
    if path.len() == 0 {
        Some(el)
    } else {
        let i = find_elem(el.children, path[0]);
        if 0 <= i < el.children.len() {
            descend(el.children[i], path.drop_first())
        } else {
            None
        }
    }
}

/// The text of an element, or nothing: an element without text answers no
/// text value.
pub open spec fn text_of(el: ElementSpec) -> Option<Seq<char>> {
    if el.text.len() > 0 {
        Some(el.text)
    } else {
        None
    }
}

/// The views of a list of borrowed names.
pub open spec fn path_view(p: Seq<&str>) -> Seq<Seq<char>> {
    Seq::new(p.len(), |i: int| p[i]@)
}

pub broadcast proof fn lemma_path_view_len(p: Seq<&str>)
    ensures
        (#[trigger] path_view(p)).len() == p.len(),
{
}

pub broadcast proof fn lemma_path_view_index(p: Seq<&str>, i: int)
    requires
        0 <= i < p.len(),
    ensures
        #[trigger] path_view(p)[i] == p[i]@,
{
}

impl Element {
    /// The first child element with the given name.
    pub fn get_child(&self, name: &str) -> (r: Option<&Element>)
        ensures
            ({
                let cs = el_view(*self).children;
                let i = find_elem(cs, name@);
                match r {
                    Some(c) => i < cs.len() && el_view(*c) == cs[i],
                    None => i == cs.len(),
                }
            }),
    {
        broadcast use group_xml_views;

        let n = self.children.len();
        let mut i: usize = 0;
        while i < n
            invariant
                n == self.children@.len(),
                0 <= i <= n,
                forall|j: int| 0 <= j < i ==> els_view(self.children@)[j].name != name@,
            decreases n - i,
        {
            if eq_str(self.children[i].name.as_str(), name) {
                proof {
                    lemma_find_elem(els_view(self.children@), name@);
                    assert(els_view(self.children@)[i as int].name == name@);
                    assert(find_elem(els_view(self.children@), name@) == i);
                    assert(el_view(*self).children == els_view(self.children@));
                    assert(els_view(self.children@)[i as int] == el_view(self.children@[i as int]));
                }
                return Some(&self.children[i]);
            }
            proof {
                assert(els_view(self.children@)[i as int] == el_view(self.children@[i as int]));
                assert(els_view(self.children@)[i as int].name != name@);
            }
            i += 1;
        }
        proof {
            lemma_find_elem(els_view(self.children@), name@);
            assert(el_view(*self).children == els_view(self.children@));
            let f = find_elem(els_view(self.children@), name@);
            if f < self.children@.len() {
                assert(els_view(self.children@)[f].name == name@);
            }
        }
        None
    }

    /// The element's text, or nothing when it has none.
    pub fn get_text(&self) -> (r: Option<&String>)
        ensures
            match r {
                Some(t) => text_of(el_view(*self)) == Some(t@),
                None => text_of(el_view(*self)) is None,
            },
    {
        broadcast use group_xml_views;

        if self.text.as_str().is_empty() {
            None
        } else {
            Some(&self.text)
        }
    }

    /// The value of the attribute with the given name, if any.
    pub fn attribute(&self, name: &str) -> (r: Option<&String>)
        ensures
            ({
                let ats = el_view(*self).attrs;
                let i = find_attr(ats, name@);
                match r {
                    Some(v) => i < ats.len() && ats[i].value == v@,
                    None => i == ats.len(),
                }
            }),
    {
        broadcast use group_xml_views;

        let n = self.attributes.len();
        let mut i: usize = 0;
        while i < n
            invariant
                n == self.attributes@.len(),
                0 <= i <= n,
                forall|j: int| 0 <= j < i ==> attrs_view(self.attributes@)[j].name != name@,
            decreases n - i,
        {
            if eq_str(self.attributes[i].name.as_str(), name) {
                proof {
                    lemma_find_attr(attrs_view(self.attributes@), name@);
                    assert(attrs_view(self.attributes@)[i as int].name == name@);
                    assert(find_attr(attrs_view(self.attributes@), name@) == i);
                }
                return Some(&self.attributes[i].value);
            }
            i += 1;
        }
        proof {
            lemma_find_attr(attrs_view(self.attributes@), name@);
        }
        None
    }

    /// Follows a fixed path of child names from this element.
    pub fn walk<'a>(&'a self, path: &[&str]) -> (r: Option<&'a Element>)
        ensures
            match r {
                Some(e) => descend(el_view(*self), path_view(path@)) == Some(el_view(*e)),
                None => descend(el_view(*self), path_view(path@)) is None,
            },
    {
        broadcast use group_xml_views, lemma_path_view_len, lemma_path_view_index;

        proof {
            assert(path_view(path@).skip(0) =~= path_view(path@));
        }
        let n = path.len();
        let mut cur: &Element = self;
        let mut i: usize = 0;
        while i < n
            invariant
                n == path@.len(),
                0 <= i <= n,
                descend(el_view(*self), path_view(path@)) == descend(
                    el_view(*cur),
                    path_view(path@).skip(i as int),
                ),
            decreases n - i,
        {
            proof {
                assert(path_view(path@).skip(i as int)[0] == path@[i as int]@);
                assert(path_view(path@).skip(i as int).drop_first() =~= path_view(path@).skip(
                    i + 1,
                ));
            }
            let name: &str = path[i];
            let r = cur.get_child(name);
            proof {
                let sk = path_view(path@).skip(i as int);
                assert(sk[0] == name@);
                let f = find_elem(el_view(*cur).children, name@);
                lemma_find_elem(el_view(*cur).children, name@);
                match r {
                    Some(c) => {
                        assert(0 <= f < el_view(*cur).children.len());
                        assert(el_view(*cur).children[f] == el_view(*c));
                        assert(descend(el_view(*cur), sk) == descend(
                            el_view(*cur).children[f],
                            sk.drop_first(),
                        ));
                        assert(descend(el_view(*cur), sk) == descend(
                            el_view(*c),
                            path_view(path@).skip(i + 1),
                        ));
                    },
                    None => {
                        assert(f == el_view(*cur).children.len());
                        assert(descend(el_view(*cur), sk) is None);
                    },
                }
            }
            match r {
                Some(c) => {
                    cur = c;
                },
                None => {
                    return None;
                },
            }
            i += 1;
        }
        proof {
            assert(path_view(path@).skip(n as int) =~= Seq::<Seq<char>>::empty());
        }
        Some(cur)
    }
}

} // verus!
