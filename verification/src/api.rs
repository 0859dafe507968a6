use vstd::prelude::*;

use crate::component::opt_view;
use crate::ical;
use crate::ical::Ical;
use crate::ical::attr_lookup_spec;
use crate::ical::lemma_find_attr;
use crate::ical::props_find;
use crate::ical_model::AttrSpec;
use crate::ical_model::IcalSpec;
use crate::ical_model::PropSpec;
use crate::ical_model::find_attr;
use crate::ical_model::find_child;
use crate::ical_model::find_prop;
use crate::strutil::eq_str;
use crate::views::attrs_view;
use crate::views::group_views;
use crate::views::ical_view;
use crate::views::props_view;
use crate::views::stack_view;

pub use crate::calendar::Calendar;
pub use crate::credentials::Credentials;

verus! {

/// A property as the convenience layer hands it out: a name, a value, and a
/// parameter map.
#[derive(Debug, Clone)]
pub struct Property {
    name: String,
    value: String,
    attributes: Vec<ical::Attr>,
}

impl View for Property {
    type V = PropSpec;

    closed spec fn view(&self) -> PropSpec {
        PropSpec { name: self.name@, value: self.value@, attrs: attrs_view(self.attributes@) }
    }
}

impl Property {
    pub fn new(name: &str, value: &str) -> (r: Self)
        ensures
            r@ == (PropSpec { name: name@, value: value@, attrs: Seq::empty() }),
    {
        let r = Self { name: name.to_owned(), value: value.to_owned(), attributes: Vec::new() };
        proof {
            assert(attrs_view(r.attributes@) =~= Seq::<AttrSpec>::empty());
        }
        r
    }

    pub fn new_with_attributes(name: &str, value: &str, attribs: Vec<(&str, &str)>) -> (r: Self)
        ensures
            r@ == (PropSpec {
                name: name@,
                value: value@,
                attrs: crate::ical::attrs_insert_pairs(Seq::empty(), attribs@),
            }),
    {
        let p = ical::Property::new_with_attributes(name, value, attribs);
        Self { name: p.name, value: p.value, attributes: p.attributes }
    }

    pub fn name(&self) -> (r: &String)
        ensures
            r@ == self@.name,
    {
        &self.name
    }

    pub fn value(&self) -> (r: &String)
        ensures
            r@ == self@.value,
    {
        &self.value
    }

    pub fn into_value(self) -> (r: String)
        ensures
            r@ == self@.value,
    {
        self.value
    }

    /// The value of the parameter with the given name, if any.
    pub fn attribute(&self, name: &str) -> (r: Option<&String>)
        ensures
            match r {
                Some(v) => attr_lookup_spec(self@.attrs, name@) == Some(v@),
                None => attr_lookup_spec(self@.attrs, name@) is None,
            },
    {
        broadcast use group_views;

        let n = self.attributes.len();
        let mut i: usize = 0;
        while i < n
            invariant
                n == self.attributes@.len(),
                0 <= i <= n,
                forall|j: int| 0 <= j < i ==> attrs_view(self.attributes@)[j].name != name@,
            decreases n - i,
        {
            if eq_str(self.attributes[i].name.as_str(), name) {
                proof {
                    lemma_find_attr(attrs_view(self.attributes@), name@);
                    assert(attrs_view(self.attributes@)[i as int].name == name@);
                    assert(find_attr(attrs_view(self.attributes@), name@) == i);
                }
                return Some(&self.attributes[i].value);
            }
            proof {
                assert(attrs_view(self.attributes@)[i as int] == self.attributes@[i as int]@);
            }
            i += 1;
        }
        proof {
            lemma_find_attr(attrs_view(self.attributes@), name@);
        }
        None
    }
}

impl From<ical::Property> for Property {
    fn from(p: ical::Property) -> (r: Self) {
        Self { name: p.name, value: p.value, attributes: p.attributes }
    }
}

impl vstd::std_specs::convert::FromSpecImpl<ical::Property> for Property {
    open spec fn obeys_from_spec() -> bool {
        true
    }

    closed spec fn from_spec(p: ical::Property) -> Self {
        Property { name: p.name, value: p.value, attributes: p.attributes }
    }
}

impl From<Property> for ical::Property {
    fn from(p: Property) -> (r: Self) {
        Self { name: p.name, value: p.value, attributes: p.attributes }
    }
}

impl vstd::std_specs::convert::FromSpecImpl<Property> for ical::Property {
    open spec fn obeys_from_spec() -> bool {
        true
    }

    closed spec fn from_spec(p: Property) -> Self {
        ical::Property { name: p.name, value: p.value, attributes: p.attributes }
    }
}

/// An event in a CalDAV calendar; corresponds to exactly one fetched calendar
/// object.
#[derive(Debug, Clone)]
pub struct Event {
    etag: Option<String>,
    url: String,
    ical: Ical,
}

impl Event {
    pub closed spec fn etag_spec(&self) -> Option<Seq<char>> {
        opt_view(self.etag)
    }

    pub closed spec fn url_spec(&self) -> Seq<char> {
        self.url@
    }

    pub closed spec fn ical_spec(&self) -> Ical {
        self.ical
    }

    /// Construct a new event.
    pub fn new(etag: Option<String>, url: String, ical: Ical) -> (r: Self)
        ensures
            r.etag_spec() == opt_view(etag),
            r.url_spec() == url@,
            r.ical_spec() == ical,
    {
        Self { etag, url, ical }
    }

    /// The full address of this event.
    pub fn url(&self) -> (r: &String)
        ensures
            r@ == self.url_spec(),
    {
        &self.url
    }

    pub fn update_url(&mut self, url: String)
        ensures
            final(self).url_spec() == url@,
            final(self).etag_spec() == old(self).etag_spec(),
            final(self).ical_spec() == old(self).ical_spec(),
    {
        self.url = url;
    }

    pub fn etag(&self) -> (r: Option<&String>)
        ensures
            match r {
                Some(t) => self.etag_spec() == Some(t@),
                None => self.etag_spec() is None,
            },
    {
        self.etag.as_ref()
    }

    pub fn set_etag(&mut self, etag: Option<String>)
        ensures
            final(self).etag_spec() == opt_view(etag),
            final(self).url_spec() == old(self).url_spec(),
            final(self).ical_spec() == old(self).ical_spec(),
    {
        self.etag = etag;
    }

    pub fn ical(&self) -> (r: &Ical)
        ensures
            r == self.ical_spec(),
    {
        &self.ical
    }

    pub fn ical_mut(&mut self) -> (r: &mut Ical)
        ensures
            *r == old(self).ical_spec(),
            final(self).ical_spec() == *final(r),
            final(self).url_spec() == old(self).url_spec(),
            final(self).etag_spec() == old(self).etag_spec(),
    {
        &mut self.ical
    }

    pub fn builder(url: String) -> (r: EventBuilder)
        ensures
            r.url_spec() == url@,
            r.etag_spec() is None,
            r.props_spec() == Seq::<PropSpec>::empty(),
    {
        let r = EventBuilder { url, etag: None, properties: Vec::new() };
        proof {
            assert(props_view(r.properties@) =~= Seq::<PropSpec>::empty());
        }
        r
    }
}

/// Assembles an event's container tree property by property.
#[derive(Debug)]
pub struct EventBuilder {
    url: String,
    etag: Option<String>,
    properties: Vec<ical::Property>,
}

impl EventBuilder {
    pub closed spec fn url_spec(&self) -> Seq<char> {
        self.url@
    }

    pub closed spec fn etag_spec(&self) -> Option<Seq<char>> {
        opt_view(self.etag)
    }

    pub closed spec fn props_spec(&self) -> Seq<PropSpec> {
        props_view(self.properties@)
    }

    /// The built tree: one root container holding one component of the given
    /// kind with the collected properties.
    pub open spec fn built_spec(&self, kind: Seq<char>) -> IcalSpec {
        IcalSpec {
            name: "VCALENDAR"@,
            props: Seq::empty(),
            children: seq![
                IcalSpec { name: kind, props: self.props_spec(), children: Seq::empty() },
            ],
        }
    }

    fn build_component(self, name: String) -> (r: Event)
        ensures
            r.etag_spec() == self.etag_spec(),
            r.url_spec() == self.url_spec(),
            ical_view(r.ical_spec()) == self.built_spec(name@),
    {
        broadcast use group_views;

        let ghost pre = self;
        let child = Ical { name, properties: self.properties, children: Vec::new() };
        proof {
            assert(ical_view(child).children =~= Seq::<IcalSpec>::empty());
        }
        let mut children: Vec<Ical> = Vec::new();
        children.push(child);
        let root = Ical { name: "VCALENDAR".to_owned(), properties: Vec::new(), children };
        proof {
            assert(ical_view(root).props =~= Seq::<PropSpec>::empty());
            assert(ical_view(root).children =~= seq![ical_view(root.children@[0])]);
            assert(ical_view(root) =~= pre.built_spec(root.children@[0].name@));
        }
        Event { etag: self.etag, url: self.url, ical: root }
    }

    /// Builds an event component.
    pub fn build(self) -> (r: Event)
        ensures
            r.etag_spec() == self.etag_spec(),
            r.url_spec() == self.url_spec(),
            ical_view(r.ical_spec()) == self.built_spec("VEVENT"@),
    {
        self.build_component("VEVENT".to_owned())
    }

    /// Builds a todo component.
    pub fn build_todo(self) -> (r: Event)
        ensures
            r.etag_spec() == self.etag_spec(),
            r.url_spec() == self.url_spec(),
            ical_view(r.ical_spec()) == self.built_spec("VTODO"@),
    {
        self.build_component("VTODO".to_owned())
    }

    pub fn etag(self, etag: Option<String>) -> (r: Self)
        ensures
            r.etag_spec() == opt_view(etag),
            r.url_spec() == self.url_spec(),
            r.props_spec() == self.props_spec(),
    {
        Self { etag, ..self }
    }

    fn push_simple(self, name: &str, value: String) -> (r: Self)
        ensures
            r.etag_spec() == self.etag_spec(),
            r.url_spec() == self.url_spec(),
            r.props_spec() == self.props_spec().push(
                PropSpec { name: name@, value: value@, attrs: Seq::empty() },
            ),
    {
        broadcast use group_views;

        let mut properties = self.properties;
        let ghost pre = properties@;
        properties.push(
            ical::Property { name: name.to_owned(), value, attributes: Vec::new() },
        );
        proof {
            assert(attrs_view(properties@.last().attributes@) =~= Seq::<AttrSpec>::empty());
            assert(props_view(properties@) =~= props_view(pre).push(properties@.last()@));
        }
        Self { url: self.url, etag: self.etag, properties }
    }

    pub fn uid(self, value: String) -> (r: Self)
        ensures
            r.etag_spec() == self.etag_spec(),
            r.url_spec() == self.url_spec(),
            r.props_spec() == self.props_spec().push(
                PropSpec { name: "UID"@, value: value@, attrs: Seq::empty() },
            ),
    {
        self.push_simple("UID", value)
    }

    pub fn timestamp(self, value: String) -> (r: Self)
        ensures
            r.etag_spec() == self.etag_spec(),
            r.url_spec() == self.url_spec(),
            r.props_spec() == self.props_spec().push(
                PropSpec { name: "DTSTAMP"@, value: value@, attrs: Seq::empty() },
            ),
    {
        self.push_simple("DTSTAMP", value)
    }

    pub fn summary(self, value: String) -> (r: Self)
        ensures
            r.etag_spec() == self.etag_spec(),
            r.url_spec() == self.url_spec(),
            r.props_spec() == self.props_spec().push(
                PropSpec { name: "SUMMARY"@, value: value@, attrs: Seq::empty() },
            ),
    {
        self.push_simple("SUMMARY", value)
    }

    pub fn priority(self, value: String) -> (r: Self)
        ensures
            r.etag_spec() == self.etag_spec(),
            r.url_spec() == self.url_spec(),
            r.props_spec() == self.props_spec().push(
                PropSpec { name: "PRIORITY"@, value: value@, attrs: Seq::empty() },
            ),
    {
        self.push_simple("PRIORITY", value)
    }

    pub fn duedate(self, value: String) -> (r: Self)
        ensures
            r.etag_spec() == self.etag_spec(),
            r.url_spec() == self.url_spec(),
            r.props_spec() == self.props_spec().push(
                PropSpec { name: "DUE"@, value: value@, attrs: Seq::empty() },
            ),
    {
        self.push_simple("DUE", value)
    }

    pub fn status(self, value: String) -> (r: Self)
        ensures
            r.etag_spec() == self.etag_spec(),
            r.url_spec() == self.url_spec(),
            r.props_spec() == self.props_spec().push(
                PropSpec { name: "STATUS"@, value: value@, attrs: Seq::empty() },
            ),
    {
        self.push_simple("STATUS", value)
    }

    pub fn generic(self, name: String, value: String) -> (r: Self)
        ensures
            r.etag_spec() == self.etag_spec(),
            r.url_spec() == self.url_spec(),
            r.props_spec() == self.props_spec().push(
                PropSpec { name: name@, value: value@, attrs: Seq::empty() },
            ),
    {
        let n = name;
        self.push_simple(n.as_str(), value)
    }

    pub fn location(self, value: Option<String>) -> (r: Self)
        ensures
            r.etag_spec() == self.etag_spec(),
            r.url_spec() == self.url_spec(),
            r.props_spec() == match value {
                Some(v) => self.props_spec().push(
                    PropSpec { name: "LOCATION"@, value: v@, attrs: Seq::empty() },
                ),
                None => self.props_spec(),
            },
    {
        match value {
            Some(v) => self.push_simple("LOCATION", v),
            None => self,
        }
    }

    pub fn description(self, value: Option<String>) -> (r: Self)
        ensures
            r.etag_spec() == self.etag_spec(),
            r.url_spec() == self.url_spec(),
            r.props_spec() == match value {
                Some(v) => self.props_spec().push(
                    PropSpec { name: "DESCRIPTION"@, value: v@, attrs: Seq::empty() },
                ),
                None => self.props_spec(),
            },
    {
        match value {
            Some(v) => self.push_simple("DESCRIPTION", v),
            None => self,
        }
    }

    pub fn rrule(self, value: Option<String>) -> (r: Self)
        ensures
            r.etag_spec() == self.etag_spec(),
            r.url_spec() == self.url_spec(),
            r.props_spec() == match value {
                Some(v) => self.props_spec().push(
                    PropSpec { name: "RRULE"@, value: v@, attrs: Seq::empty() },
                ),
                None => self.props_spec(),
            },
    {
        match value {
            Some(v) => self.push_simple("RRULE", v),
            None => self,
        }
    }

    fn push_with_attributes(self, name: &str, value: String, attributes: Vec<(&str, &str)>) -> (r:
        Self)
        ensures
            r.etag_spec() == self.etag_spec(),
            r.url_spec() == self.url_spec(),
            r.props_spec() == self.props_spec().push(
                PropSpec {
                    name: name@,
                    value: value@,
                    attrs: crate::ical::attrs_insert_pairs(Seq::empty(), attributes@),
                },
            ),
    {
        broadcast use group_views;

        let p = ical::Property::new_with_attributes(name, value.as_str(), attributes);
        let mut properties = self.properties;
        let ghost pre = properties@;
        let ghost pv = p@;
        properties.push(p);
        proof {
            assert(props_view(properties@) =~= props_view(pre).push(pv));
        }
        Self { url: self.url, etag: self.etag, properties }
    }

    pub fn start(self, value: String, attributes: Vec<(&str, &str)>) -> (r: Self)
        ensures
            r.etag_spec() == self.etag_spec(),
            r.url_spec() == self.url_spec(),
            r.props_spec() == self.props_spec().push(
                PropSpec {
                    name: "DTSTART"@,
                    value: value@,
                    attrs: crate::ical::attrs_insert_pairs(Seq::empty(), attributes@),
                },
            ),
    {
        self.push_with_attributes("DTSTART", value, attributes)
    }

    pub fn end(self, value: String, attributes: Vec<(&str, &str)>) -> (r: Self)
        ensures
            r.etag_spec() == self.etag_spec(),
            r.url_spec() == self.url_spec(),
            r.props_spec() == self.props_spec().push(
                PropSpec {
                    name: "DTEND"@,
                    value: value@,
                    attrs: crate::ical::attrs_insert_pairs(Seq::empty(), attributes@),
                },
            ),
    {
        self.push_with_attributes("DTEND", value, attributes)
    }
}


/// What the event-level helpers do to the tree, stated once: they act on the
/// first component of the given kind.
pub open spec fn event_component(t: IcalSpec) -> Option<int> {
    let ci = find_child(t.children, "VEVENT"@);
    if 0 <= ci < t.children.len() {
        Some(ci)
    } else {
        None
    }
}

/// Setting a property: replace the value of the first property of that name
/// in the first event component, or append a new property there; without an
/// event component the tree is unchanged.
pub open spec fn set_prop_spec(t: IcalSpec, name: Seq<char>, value: Seq<char>) -> IcalSpec {
    match event_component(t) {
        Some(ci) => {
            let ev = t.children[ci];
            let pj = find_prop(ev.props, name);
            let ev2 = if 0 <= pj < ev.props.len() {
                IcalSpec {
                    props: ev.props.update(pj, PropSpec { value: value, ..ev.props[pj] }),
                    ..ev
                }
            } else {
                IcalSpec {
                    props: ev.props.push(PropSpec { name: name, value: value, attrs: Seq::empty() }),
                    ..ev
                }
            };
            IcalSpec { children: t.children.update(ci, ev2), ..t }
        },
        None => t,
    }
}

impl Event {
    /// The first property with the given name in the first component of the
    /// given kind.
    fn get_property(&self, name: &str, datatype: &str) -> (r: Option<Property>)
        ensures
            ({
                let t = ical_view(self.ical_spec());
                let ci = find_child(t.children, datatype@);
                match r {
                    Some(p) => ci < t.children.len() && find_prop(t.children[ci].props, name@)
                        < t.children[ci].props.len() && p@ == t.children[ci].props[find_prop(
                        t.children[ci].props,
                        name@,
                    )],
                    None => ci == t.children.len() || find_prop(t.children[ci].props, name@)
                        == t.children[ci].props.len(),
                }
            }),
    {
        broadcast use group_views;

        match self.ical.get(datatype) {
            Some(node) => match props_find(&node.properties, name) {
                Some(j) => {
                    let p = node.properties[j].clone();
                    proof {
                        assert(props_view(node.properties@)[j as int] == node.properties@[j as int]@);
                    }
                    Some(Property { name: p.name, value: p.value, attributes: p.attributes })
                },
                None => None,
            },
            None => None,
        }
    }

    /// The first property of the given name in the first event component.
    pub fn property(&self, name: &str) -> (r: Option<Property>)
        ensures
            ({
                let t = ical_view(self.ical_spec());
                let ci = find_child(t.children, "VEVENT"@);
                match r {
                    Some(p) => ci < t.children.len() && find_prop(t.children[ci].props, name@)
                        < t.children[ci].props.len() && p@ == t.children[ci].props[find_prop(
                        t.children[ci].props,
                        name@,
                    )],
                    None => ci == t.children.len() || find_prop(t.children[ci].props, name@)
                        == t.children[ci].props.len(),
                }
            }),
    {
        self.get_property(name, "VEVENT")
    }

    /// The first property of the given name in the first todo component.
    pub fn property_todo(&self, name: &str) -> (r: Option<Property>)
        ensures
            ({
                let t = ical_view(self.ical_spec());
                let ci = find_child(t.children, "VTODO"@);
                match r {
                    Some(p) => ci < t.children.len() && find_prop(t.children[ci].props, name@)
                        < t.children[ci].props.len() && p@ == t.children[ci].props[find_prop(
                        t.children[ci].props,
                        name@,
                    )],
                    None => ci == t.children.len() || find_prop(t.children[ci].props, name@)
                        == t.children[ci].props.len(),
                }
            }),
    {
        self.get_property(name, "VTODO")
    }

    /// The value of the first property of the given name in the first event
    /// component.
    pub fn get(&self, name: &str) -> (r: Option<&String>)
        ensures
            ({
                let t = ical_view(self.ical_spec());
                let ci = find_child(t.children, "VEVENT"@);
                match r {
                    Some(v) => ci < t.children.len() && find_prop(t.children[ci].props, name@)
                        < t.children[ci].props.len() && v@ == t.children[ci].props[find_prop(
                        t.children[ci].props,
                        name@,
                    )].value,
                    None => ci == t.children.len() || find_prop(t.children[ci].props, name@)
                        == t.children[ci].props.len(),
                }
            }),
    {
        broadcast use group_views;

        match self.ical.get("VEVENT") {
            Some(node) => match props_find(&node.properties, name) {
                Some(j) => {
                    proof {
                        assert(props_view(node.properties@)[j as int] == node.properties@[j as int]@);
                    }
                    Some(&node.properties[j].value)
                },
                None => None,
            },
            None => None,
        }
    }

    /// Appends a property to the first event component; without one, the
    /// tree is unchanged.
    pub fn add(&mut self, property: Property)
        ensures
            final(self).url_spec() == old(self).url_spec(),
            final(self).etag_spec() == old(self).etag_spec(),
            ({
                let t = ical_view(old(self).ical_spec());
                match event_component(t) {
                    Some(ci) => ical_view(final(self).ical_spec()) == (IcalSpec {
                        children: t.children.update(
                            ci,
                            IcalSpec {
                                props: t.children[ci].props.push(property@),
                                ..t.children[ci]
                            },
                        ),
                        ..t
                    }),
                    None => final(self).ical_spec() == old(self).ical_spec(),
                }
            }),
    {
        broadcast use group_views;

        let ghost t = ical_view(self.ical);
        match crate::ical::children_find(&self.ical.children, "VEVENT") {
            Some(ci) => {
                let ghost pre = self.ical;
                let node = vstd::std_specs::vec::vec_index_mut(&mut self.ical.children, ci);
                let ghost nodepre = *node;
                node.properties.push(
                    ical::Property {
                        name: property.name,
                        value: property.value,
                        attributes: property.attributes,
                    },
                );
                proof {
                    assert(props_view(node.properties@) =~= props_view(nodepre.properties@).push(
                        node.properties@.last()@,
                    ));
                    assert(ical_view(*node) =~= (IcalSpec {
                        props: ical_view(nodepre).props.push(property@),
                        ..ical_view(nodepre)
                    }));
                }
                proof {
                    assert(ical_view(self.ical).children =~= t.children.update(
                        ci as int,
                        IcalSpec { props: t.children[ci as int].props.push(property@), ..t.children[ci as int] },
                    ));
                    assert(ical_view(self.ical) =~= (IcalSpec {
                        children: t.children.update(
                            ci as int,
                            IcalSpec {
                                props: t.children[ci as int].props.push(property@),
                                ..t.children[ci as int]
                            },
                        ),
                        ..t
                    }));
                }
            },
            None => {},
        }
    }

    /// Sets the value of the first property of the given name in the first
    /// event component, or appends a new property there.
    pub fn set(&mut self, name: &str, value: &str)
        ensures
            final(self).url_spec() == old(self).url_spec(),
            final(self).etag_spec() == old(self).etag_spec(),
            ical_view(final(self).ical_spec()) == set_prop_spec(
                ical_view(old(self).ical_spec()),
                name@,
                value@,
            ),
    {
        broadcast use group_views;

        let ghost t = ical_view(self.ical);
        match crate::ical::children_find(&self.ical.children, "VEVENT") {
            Some(ci) => {
                let node = vstd::std_specs::vec::vec_index_mut(&mut self.ical.children, ci);
                let ghost nodepre = *node;
                match props_find(&node.properties, name) {
                    Some(pj) => {
                        let prop = vstd::std_specs::vec::vec_index_mut(&mut node.properties, pj);
                        let ghost proppre = *prop;
                        prop.value = value.to_owned();
                        proof {
                            assert(prop@ =~= (PropSpec { value: value@, ..proppre@ }));
                        }
                        proof {
                            assert(props_view(node.properties@) =~= props_view(
                                nodepre.properties@,
                            ).update(pj as int, PropSpec { value: value@, ..proppre@ }));
                            assert(props_view(nodepre.properties@)[pj as int] == proppre@);
                            assert(ical_view(*node) =~= (IcalSpec {
                                props: ical_view(nodepre).props.update(
                                    pj as int,
                                    PropSpec { value: value@, ..ical_view(nodepre).props[pj as int] },
                                ),
                                ..ical_view(nodepre)
                            }));
                        }
                    },
                    None => {
                        node.properties.push(
                            ical::Property {
                                name: name.to_owned(),
                                value: value.to_owned(),
                                attributes: Vec::new(),
                            },
                        );
                        proof {
                            assert(attrs_view(node.properties@.last().attributes@)
                                =~= Seq::<AttrSpec>::empty());
                            assert(props_view(node.properties@) =~= props_view(
                                nodepre.properties@,
                            ).push(PropSpec { name: name@, value: value@, attrs: Seq::empty() }));
                            assert(ical_view(*node) =~= (IcalSpec {
                                props: ical_view(nodepre).props.push(
                                    PropSpec { name: name@, value: value@, attrs: Seq::empty() },
                                ),
                                ..ical_view(nodepre)
                            }));
                        }
                    },
                }
                proof {
                    assert(ical_view(self.ical).children =~= set_prop_spec(t, name@, value@).children);
                    assert(ical_view(self.ical) =~= set_prop_spec(t, name@, value@));
                }
            },
            None => {},
        }
    }
}


/// The values of all properties of a given name, in order.
pub open spec fn values_named(ps: Seq<PropSpec>, name: Seq<char>) -> Seq<Seq<char>>
    decreases ps.len(),
{
    if ps.len() == 0 {
        Seq::empty()
    } else {
        (if ps[0].name == name {
            seq![ps[0].value]
        } else {
            Seq::empty()
        }) + values_named(ps.drop_first(), name)
    }
}

proof fn lemma_values_named_concat(a: Seq<PropSpec>, b: Seq<PropSpec>, name: Seq<char>)
    ensures
        values_named(a + b, name) == values_named(a, name) + values_named(b, name),
    decreases a.len(),
{
    if a.len() == 0 {
        assert(a + b =~= b);
        assert(values_named(a, name) + values_named(b, name) =~= values_named(b, name));
    } else {
        assert((a + b)[0] == a[0]);
        assert((a + b).drop_first() =~= a.drop_first() + b);
        lemma_values_named_concat(a.drop_first(), b, name);
        assert(values_named(a + b, name) =~= values_named(a, name) + values_named(b, name));
    }
}

pub open spec fn ref_strs_view(s: Seq<&String>) -> Seq<Seq<char>> {
    Seq::new(s.len(), |i: int| s[i]@)
}

impl Event {
    /// The values of all properties of the given name in the first event
    /// component; nothing without an event component.
    pub fn get_all(&self, name: &str) -> (r: Option<Vec<&String>>)
        ensures
            ({
                let t = ical_view(self.ical_spec());
                let ci = find_child(t.children, "VEVENT"@);
                match r {
                    Some(vs) => ci < t.children.len() && ref_strs_view(vs@) == values_named(
                        t.children[ci].props,
                        name@,
                    ),
                    None => ci == t.children.len(),
                }
            }),
    {
        broadcast use group_views;

        match self.ical.get("VEVENT") {
            Some(node) => {
                let ghost pv = props_view(node.properties@);
                let mut vs: Vec<&String> = Vec::new();
                let n = node.properties.len();
                let mut i: usize = 0;
                proof {
                    assert(pv.take(0) =~= Seq::<PropSpec>::empty());
                    assert(ref_strs_view(vs@) =~= values_named(pv.take(0), name@));
                }
                while i < n
                    invariant
                        n == node.properties@.len(),
                        pv == props_view(node.properties@),
                        0 <= i <= n,
                        ref_strs_view(vs@) == values_named(pv.take(i as int), name@),
                    decreases n - i,
                {
                    proof {
                        assert(pv[i as int] == node.properties@[i as int]@);
                        lemma_values_named_concat(pv.take(i as int), seq![pv[i as int]], name@);
                        assert(pv.take(i + 1) =~= pv.take(i as int) + seq![pv[i as int]]);
                        assert(seq![pv[i as int]].drop_first() =~= Seq::<PropSpec>::empty());
                        assert(values_named(Seq::<PropSpec>::empty(), name@)
                            == Seq::<Seq<char>>::empty());
                    }
                    if eq_str(node.properties[i].name.as_str(), name) {
                        let ghost pre = vs@;
                        vs.push(&node.properties[i].value);
                        proof {
                            assert(ref_strs_view(vs@) =~= ref_strs_view(pre).push(
                                node.properties@[i as int].value@,
                            ));
                            assert(values_named(seq![pv[i as int]], name@) =~= seq![pv[i as int].value]);
                            assert(ref_strs_view(vs@) =~= values_named(pv.take(i + 1), name@));
                        }
                    } else {
                        proof {
                            assert(values_named(seq![pv[i as int]], name@)
                                =~= Seq::<Seq<char>>::empty());
                            assert(ref_strs_view(vs@) =~= values_named(pv.take(i + 1), name@));
                        }
                    }
                    i += 1;
                }
                proof {
                    assert(pv.take(n as int) =~= pv);
                }
                Some(vs)
            },
            None => None,
        }
    }

    /// Removes and returns the first property of the given name from the
    /// first event component.
    pub fn pop_property(&mut self, name: &str) -> (r: Option<Property>)
        ensures
            final(self).url_spec() == old(self).url_spec(),
            final(self).etag_spec() == old(self).etag_spec(),
            ({
                let t = ical_view(old(self).ical_spec());
                let ci = find_child(t.children, "VEVENT"@);
                match r {
                    Some(p) => ci < t.children.len() && find_prop(t.children[ci].props, name@)
                        < t.children[ci].props.len() && p@ == t.children[ci].props[find_prop(
                        t.children[ci].props,
                        name@,
                    )] && ical_view(final(self).ical_spec()) == (IcalSpec {
                        children: t.children.update(
                            ci,
                            IcalSpec {
                                props: t.children[ci].props.remove(
                                    find_prop(t.children[ci].props, name@),
                                ),
                                ..t.children[ci]
                            },
                        ),
                        ..t
                    }),
                    None => (ci == t.children.len() || find_prop(t.children[ci].props, name@)
                        == t.children[ci].props.len()) && final(self).ical_spec() == old(
                        self,
                    ).ical_spec(),
                }
            }),
    {
        broadcast use group_views;

        let ghost t = ical_view(self.ical);
        match crate::ical::children_find(&self.ical.children, "VEVENT") {
            Some(ci) => {
                let pj_found = props_find(&self.ical.children[ci].properties, name);
                match pj_found {
                    Some(pj) => {
                        let node = vstd::std_specs::vec::vec_index_mut(
                            &mut self.ical.children,
                            ci,
                        );
                        let ghost nodepre = *node;
                        let p = node.properties.remove(pj);
                        proof {
                            assert(p@ == props_view(nodepre.properties@)[pj as int]);
                            assert(props_view(node.properties@) =~= props_view(
                                nodepre.properties@,
                            ).remove(pj as int));
                            assert(ical_view(*node) =~= (IcalSpec {
                                props: ical_view(nodepre).props.remove(pj as int),
                                ..ical_view(nodepre)
                            }));
                        }
                        let out = Property {
                            name: p.name,
                            value: p.value,
                            attributes: p.attributes,
                        };
                        proof {
                            assert(ical_view(self.ical).children =~= t.children.update(
                                ci as int,
                                IcalSpec {
                                    props: t.children[ci as int].props.remove(
                                        find_prop(t.children[ci as int].props, name@),
                                    ),
                                    ..t.children[ci as int]
                                },
                            ));
                            assert(ical_view(self.ical) =~= (IcalSpec {
                                children: t.children.update(
                                    ci as int,
                                    IcalSpec {
                                        props: t.children[ci as int].props.remove(
                                            find_prop(t.children[ci as int].props, name@),
                                        ),
                                        ..t.children[ci as int]
                                    },
                                ),
                                ..t
                            }));
                        }
                        Some(out)
                    },
                    None => None,
                }
            },
            None => None,
        }
    }

    /// Inserts or replaces a parameter of the first property of the given
    /// name in the first event component.
    pub fn set_property_attribute(&mut self, name: &str, attr_name: &str, attr_value: &str)
        ensures
            final(self).url_spec() == old(self).url_spec(),
            final(self).etag_spec() == old(self).etag_spec(),
            ({
                let t = ical_view(old(self).ical_spec());
                let ci = find_child(t.children, "VEVENT"@);
                if ci < t.children.len() && find_prop(t.children[ci].props, name@) < t.children[
                    ci
                ].props.len() {
                    let pj = find_prop(t.children[ci].props, name@);
                    let p = t.children[ci].props[pj];
                    ical_view(final(self).ical_spec()) == (IcalSpec {
                        children: t.children.update(
                            ci,
                            IcalSpec {
                                props: t.children[ci].props.update(
                                    pj,
                                    PropSpec {
                                        attrs: crate::ical_model::attrs_insert(
                                            p.attrs,
                                            AttrSpec { name: attr_name@, value: attr_value@ },
                                        ),
                                        ..p
                                    },
                                ),
                                ..t.children[ci]
                            },
                        ),
                        ..t
                    })
                } else {
                    final(self).ical_spec() == old(self).ical_spec()
                }
            }),
    {
        broadcast use group_views;

        let ghost t = ical_view(self.ical);
        match crate::ical::children_find(&self.ical.children, "VEVENT") {
            Some(ci) => {
                let pj_found = props_find(&self.ical.children[ci].properties, name);
                match pj_found {
                    Some(pj) => {
                        let node = vstd::std_specs::vec::vec_index_mut(
                            &mut self.ical.children,
                            ci,
                        );
                        let ghost nodepre = *node;
                        let prop = vstd::std_specs::vec::vec_index_mut(&mut node.properties, pj);
                        let ghost proppre = *prop;
                        crate::ical::attrs_insert_exec(
                            &mut prop.attributes,
                            attr_name.to_owned(),
                            attr_value.to_owned(),
                        );
                        proof {
                            assert(prop@ =~= (PropSpec {
                                attrs: crate::ical_model::attrs_insert(
                                    proppre@.attrs,
                                    AttrSpec { name: attr_name@, value: attr_value@ },
                                ),
                                ..proppre@
                            }));
                        }
                        proof {
                            assert(props_view(nodepre.properties@)[pj as int] == proppre@);
                            assert(props_view(node.properties@) =~= props_view(
                                nodepre.properties@,
                            ).update(
                                pj as int,
                                PropSpec {
                                    attrs: crate::ical_model::attrs_insert(
                                        proppre@.attrs,
                                        AttrSpec { name: attr_name@, value: attr_value@ },
                                    ),
                                    ..proppre@
                                },
                            ));
                            assert(ical_view(*node) =~= (IcalSpec {
                                props: props_view(node.properties@),
                                ..ical_view(nodepre)
                            }));
                        }
                        proof {
                            assert(ical_view(self.ical).children =~= ical_view(
                                old(self).ical_spec(),
                            ).children.update(ci as int, ical_view(self.ical.children@[ci as int])));
                            assert(ical_view(self.ical) =~= (IcalSpec {
                                children: t.children.update(
                                    ci as int,
                                    IcalSpec {
                                        props: t.children[ci as int].props.update(
                                            find_prop(t.children[ci as int].props, name@),
                                            PropSpec {
                                                attrs: crate::ical_model::attrs_insert(
                                                    t.children[ci as int].props[find_prop(
                                                        t.children[ci as int].props,
                                                        name@,
                                                    )].attrs,
                                                    AttrSpec {
                                                        name: attr_name@,
                                                        value: attr_value@,
                                                    },
                                                ),
                                                ..t.children[ci as int].props[find_prop(
                                                    t.children[ci as int].props,
                                                    name@,
                                                )]
                                            },
                                        ),
                                        ..t.children[ci as int]
                                    },
                                ),
                                ..t
                            }));
                        }
                    },
                    None => {},
                }
            },
            None => {},
        }
    }

    /// Removes a parameter of the first property of the given name in the
    /// first event component.
    pub fn remove_property_attribute(&mut self, name: &str, attr_name: &str)
        ensures
            final(self).url_spec() == old(self).url_spec(),
            final(self).etag_spec() == old(self).etag_spec(),
            ({
                let t = ical_view(old(self).ical_spec());
                let ci = find_child(t.children, "VEVENT"@);
                if ci < t.children.len() && find_prop(t.children[ci].props, name@) < t.children[
                    ci
                ].props.len() && find_attr(
                    t.children[ci].props[find_prop(t.children[ci].props, name@)].attrs,
                    attr_name@,
                ) < t.children[ci].props[find_prop(t.children[ci].props, name@)].attrs.len() {
                    let pj = find_prop(t.children[ci].props, name@);
                    let p = t.children[ci].props[pj];
                    let ai = find_attr(p.attrs, attr_name@);
                    ical_view(final(self).ical_spec()) == (IcalSpec {
                        children: t.children.update(
                            ci,
                            IcalSpec {
                                props: t.children[ci].props.update(
                                    pj,
                                    PropSpec { attrs: p.attrs.remove(ai), ..p },
                                ),
                                ..t.children[ci]
                            },
                        ),
                        ..t
                    })
                } else {
                    final(self).ical_spec() == old(self).ical_spec()
                }
            }),
    {
        broadcast use group_views;

        let ghost t = ical_view(self.ical);
        match crate::ical::children_find(&self.ical.children, "VEVENT") {
            Some(ci) => {
                let pj_found = props_find(&self.ical.children[ci].properties, name);
                match pj_found {
                    Some(pj) => {
                        let found = attrs_find_exec(
                            &self.ical.children[ci].properties[pj].attributes,
                            attr_name,
                        );
                        match found {
                            Some(ai) => {
                                let node = vstd::std_specs::vec::vec_index_mut(
                                    &mut self.ical.children,
                                    ci,
                                );
                                let ghost nodepre = *node;
                                let prop = vstd::std_specs::vec::vec_index_mut(
                                    &mut node.properties,
                                    pj,
                                );
                                let ghost proppre = *prop;
                                prop.attributes.remove(ai);
                                proof {
                                    assert(attrs_view(prop.attributes@) =~= attrs_view(
                                        proppre.attributes@,
                                    ).remove(ai as int));
                                    assert(prop@ =~= (PropSpec {
                                        attrs: proppre@.attrs.remove(ai as int),
                                        ..proppre@
                                    }));
                                }
                                proof {
                                    assert(props_view(nodepre.properties@)[pj as int] == proppre@);
                                    assert(props_view(node.properties@) =~= props_view(
                                        nodepre.properties@,
                                    ).update(
                                        pj as int,
                                        PropSpec {
                                            attrs: proppre@.attrs.remove(ai as int),
                                            ..proppre@
                                        },
                                    ));
                                    assert(ical_view(*node) =~= (IcalSpec {
                                        props: props_view(node.properties@),
                                        ..ical_view(nodepre)
                                    }));
                                }
                                proof {
                                    let pjj = find_prop(t.children[ci as int].props, name@);
                                    let pp = t.children[ci as int].props[pjj];
                                    let aii = find_attr(pp.attrs, attr_name@);
                                    assert(ical_view(self.ical).children =~= t.children.update(
                                        ci as int,
                                        IcalSpec {
                                            props: t.children[ci as int].props.update(
                                                pjj,
                                                PropSpec { attrs: pp.attrs.remove(aii), ..pp },
                                            ),
                                            ..t.children[ci as int]
                                        },
                                    ));
                                    assert(ical_view(self.ical) =~= (IcalSpec {
                                        children: t.children.update(
                                            ci as int,
                                            IcalSpec {
                                                props: t.children[ci as int].props.update(
                                                    pjj,
                                                    PropSpec { attrs: pp.attrs.remove(aii), ..pp },
                                                ),
                                                ..t.children[ci as int]
                                            },
                                        ),
                                        ..t
                                    }));
                                }
                            },
                            None => {},
                        }
                    },
                    None => {},
                }
            },
            None => {},
        }
    }

    /// All name/value pairs of the first component of the given kind; empty
    /// without one.
    fn get_properties(&self, datatype: &str) -> (r: Vec<(&String, &String)>)
        ensures
            ({
                let t = ical_view(self.ical_spec());
                let ci = find_child(t.children, datatype@);
                if ci < t.children.len() {
                    r@.len() == t.children[ci].props.len() && forall|j: int|
                        0 <= j < r@.len() ==> (#[trigger] r@[j]).0@ == t.children[ci].props[j].name
                            && r@[j].1@ == t.children[ci].props[j].value
                } else {
                    r@.len() == 0
                }
            }),
    {
        broadcast use group_views;

        match self.ical.get(datatype) {
            Some(node) => {
                let ghost pv = props_view(node.properties@);
                let mut out: Vec<(&String, &String)> = Vec::new();
                let n = node.properties.len();
                let mut i: usize = 0;
                while i < n
                    invariant
                        n == node.properties@.len(),
                        pv == props_view(node.properties@),
                        0 <= i <= n,
                        out@.len() == i,
                        forall|j: int|
                            0 <= j < i ==> (#[trigger] out@[j]).0@ == pv[j].name && out@[j].1@
                                == pv[j].value,
                    decreases n - i,
                {
                    proof {
                        assert(pv[i as int] == node.properties@[i as int]@);
                    }
                    out.push((&node.properties[i].name, &node.properties[i].value));
                    i += 1;
                }
                out
            },
            None => Vec::new(),
        }
    }

    /// All name/value pairs of the first event component.
    pub fn properties(&self) -> (r: Vec<(&String, &String)>)
        ensures
            ({
                let t = ical_view(self.ical_spec());
                let ci = find_child(t.children, "VEVENT"@);
                if ci < t.children.len() {
                    r@.len() == t.children[ci].props.len() && forall|j: int|
                        0 <= j < r@.len() ==> (#[trigger] r@[j]).0@ == t.children[ci].props[j].name
                            && r@[j].1@ == t.children[ci].props[j].value
                } else {
                    r@.len() == 0
                }
            }),
    {
        self.get_properties("VEVENT")
    }

    /// All name/value pairs of the first todo component.
    pub fn properties_todo(&self) -> (r: Vec<(&String, &String)>)
        ensures
            ({
                let t = ical_view(self.ical_spec());
                let ci = find_child(t.children, "VTODO"@);
                if ci < t.children.len() {
                    r@.len() == t.children[ci].props.len() && forall|j: int|
                        0 <= j < r@.len() ==> (#[trigger] r@[j]).0@ == t.children[ci].props[j].name
                            && r@[j].1@ == t.children[ci].props[j].value
                } else {
                    r@.len() == 0
                }
            }),
    {
        self.get_properties("VTODO")
    }

    /// The properties of the first event component, taken out of the event.
    pub fn into_properties(self) -> (r: Vec<Property>)
        ensures
            ({
                let t = ical_view(self.ical_spec());
                let ci = find_child(t.children, "VEVENT"@);
                if ci < t.children.len() {
                    r@.len() == t.children[ci].props.len() && forall|j: int|
                        0 <= j < r@.len() ==> (#[trigger] r@[j])@ == t.children[ci].props[j]
                } else {
                    r@.len() == 0
                }
            }),
    {
        broadcast use group_views;

        let ghost t = ical_view(self.ical);
        match crate::ical::children_find(&self.ical.children, "VEVENT") {
            Some(ci) => {
                let mut children = self.ical.children;
                let ghost cv = children@;
                let node = children.remove(ci);
                proof {
                    assert(ical_view(node) == t.children[ci as int]);
                }
                let ghost pv = props_view(node.properties@);
                let mut out: Vec<Property> = Vec::new();
                let mut rest = node.properties;
                proof {
                    assert(props_view(rest@) =~= pv.skip(0));
                }
                while rest.len() > 0
                    invariant
                        out@.len() + rest@.len() == pv.len(),
                        props_view(rest@) == pv.skip(out@.len() as int),
                        forall|j: int| 0 <= j < out@.len() ==> (#[trigger] out@[j])@ == pv[j],
                    decreases rest@.len(),
                {
                    let ghost outpre = out@;
                    let ghost restpre = rest@;
                    let p = rest.remove(0);
                    proof {
                        assert(p@ == props_view(restpre)[0]);
                        assert(props_view(restpre)[0] == pv[outpre.len() as int]);
                        assert(props_view(rest@) =~= props_view(restpre).remove(0));
                        assert(props_view(restpre).remove(0) =~= pv.skip(outpre.len() as int + 1));
                    }
                    out.push(Property { name: p.name, value: p.value, attributes: p.attributes });
                }
                out
            },
            None => Vec::new(),
        }
    }

    /// Appends a child container to the event's tree.
    pub fn add_component(&mut self, ical: Ical)
        ensures
            final(self).url_spec() == old(self).url_spec(),
            final(self).etag_spec() == old(self).etag_spec(),
            ical_view(final(self).ical_spec()) == (IcalSpec {
                children: ical_view(old(self).ical_spec()).children.push(ical_view(ical)),
                ..ical_view(old(self).ical_spec())
            }),
    {
        broadcast use group_views;

        let ghost t = ical_view(self.ical);
        let ghost icv = ical_view(ical);
        self.ical.children.push(ical);
        proof {
            assert(ical_view(self.ical).children =~= t.children.push(icv));
            assert(ical_view(self.ical) =~= (IcalSpec { children: t.children.push(icv), ..t }));
        }
    }

    /// The first child container, for mutation.
    pub fn get_first_component_mut(&mut self) -> (r: Option<&mut Ical>)
        ensures
            final(self).url_spec() == old(self).url_spec(),
            final(self).etag_spec() == old(self).etag_spec(),
            ({
                let pre = old(self).ical_spec();
                match r {
                    Some(c) => pre.children@.len() > 0 && *c == pre.children@[0]
                        && final(self).ical_spec().name == pre.name
                        && final(self).ical_spec().properties@
                        == pre.properties@ && final(self).ical_spec().children@
                        == pre.children@.update(0, *final(c)),
                    None => pre.children@.len() == 0 && final(self).ical_spec() == pre,
                }
            }),
    {
        if self.ical.children.len() > 0 {
            let c = vstd::std_specs::vec::vec_index_mut(&mut self.ical.children, 0);
            Some(c)
        } else {
            None
        }
    }

    /// The first child container whose first `RECURRENCE-ID` property has the
    /// given value, for mutation.
    pub fn get_component_by_recurid(&mut self, recurid: &str) -> (r: Option<&mut Ical>)
        ensures
            final(self).url_spec() == old(self).url_spec(),
            final(self).etag_spec() == old(self).etag_spec(),
            ({
                let pre = old(self).ical_spec();
                let i = find_recurid(pre.children@, recurid@);
                match r {
                    Some(c) => i < pre.children@.len() && *c == pre.children@[i]
                        && final(self).ical_spec().name == pre.name
                        && final(self).ical_spec().properties@ == pre.properties@
                        && final(self).ical_spec().children@ == pre.children@.update(
                        i,
                        *final(c),
                    ),
                    None => i == pre.children@.len() && final(self).ical_spec() == pre,
                }
            }),
    {
        broadcast use group_views;

        let n = self.ical.children.len();
        let mut i: usize = 0;
        while i < n
            invariant
                n == self.ical.children@.len(),
                self == old(self),
                0 <= i <= n,
                forall|k: int| 0 <= k < i ==> !has_recurid(self.ical.children@[k], recurid@),
            decreases n - i,
        {
            let node = &self.ical.children[i];
            let matched = match props_find(&node.properties, "RECURRENCE-ID") {
                Some(j) => {
                    proof {
                        assert(props_view(node.properties@)[j as int] == node.properties@[j as int]@);
                    }
                    eq_str(node.properties[j].value.as_str(), recurid)
                },
                None => false,
            };
            if matched {
                proof {
                    assert(has_recurid(self.ical.children@[i as int], recurid@));
                    lemma_find_recurid(self.ical.children@, recurid@);
                    assert(find_recurid(self.ical.children@, recurid@) == i);
                }
                let c = vstd::std_specs::vec::vec_index_mut(&mut self.ical.children, i);
                return Some(c);
            }
            proof {
                assert(!has_recurid(self.ical.children@[i as int], recurid@));
            }
            i += 1;
        }
        proof {
            lemma_find_recurid(self.ical.children@, recurid@);
            let f = find_recurid(self.ical.children@, recurid@);
            if f < self.ical.children@.len() {
                assert(has_recurid(self.ical.children@[f], recurid@));
            }
        }
        None
    }
}

/// Index of the first child whose first `RECURRENCE-ID` property has the
/// given value, or the length if absent.
pub open spec fn find_recurid(cs: Seq<Ical>, rid: Seq<char>) -> int
    decreases cs.len(),
{
    if cs.len() == 0 {
        0
    } else if has_recurid(cs[0], rid) {
        0
    } else {
        1 + find_recurid(cs.drop_first(), rid)
    }
}

pub proof fn lemma_find_recurid(cs: Seq<Ical>, rid: Seq<char>)
    ensures
        0 <= find_recurid(cs, rid) <= cs.len(),
        find_recurid(cs, rid) < cs.len() ==> has_recurid(cs[find_recurid(cs, rid)], rid),
        forall|j: int| 0 <= j < find_recurid(cs, rid) ==> !has_recurid(cs[j], rid),
    decreases cs.len(),
{
    if cs.len() > 0 && !has_recurid(cs[0], rid) {
        lemma_find_recurid(cs.drop_first(), rid);
        assert forall|j: int| 0 <= j < find_recurid(cs, rid) implies !has_recurid(cs[j], rid) by {
            if j > 0 {
                assert(cs.drop_first()[j - 1] == cs[j]);
                assert(!has_recurid(cs.drop_first()[j - 1], rid));
            }
        }
    }
}

/// Whether a container's first `RECURRENCE-ID` property has the given value.
pub open spec fn has_recurid(c: Ical, rid: Seq<char>) -> bool {
    let ps = ical_view(c).props;
    let j = find_prop(ps, "RECURRENCE-ID"@);
    0 <= j < ps.len() && ps[j].value == rid
}

/// Finds the first attribute with the given key.
fn attrs_find_exec(attrs: &Vec<ical::Attr>, key: &str) -> (r: Option<usize>)
    ensures
        ({
            let i = find_attr(attrs_view(attrs@), key@);
            match r {
                Some(j) => j == i && i < attrs@.len(),
                None => i == attrs@.len(),
            }
        }),
{
    broadcast use group_views;

    let n = attrs.len();
    let mut i: usize = 0;
    while i < n
        invariant
            n == attrs@.len(),
            0 <= i <= n,
            forall|j: int| 0 <= j < i ==> attrs_view(attrs@)[j].name != key@,
        decreases n - i,
    {
        if eq_str(attrs[i].name.as_str(), key) {
            proof {
                lemma_find_attr(attrs_view(attrs@), key@);
                assert(attrs_view(attrs@)[i as int].name == key@);
                assert(find_attr(attrs_view(attrs@), key@) == i);
            }
            return Some(i);
        }
        proof {
            assert(attrs_view(attrs@)[i as int] == attrs@[i as int]@);
        }
        i += 1;
    }
    proof {
        lemma_find_attr(attrs_view(attrs@), key@);
        let f = find_attr(attrs_view(attrs@), key@);
        if f < attrs@.len() {
            assert(attrs_view(attrs@)[f].name == key@);
        }
    }
    None
}


// ---------------------------------------------------------------------------
// Reading and writing decimal numbers, for the sequence convention.
// ---------------------------------------------------------------------------

pub open spec fn is_digit(c: char) -> bool {
    '0' <= c && c <= '9'
}

pub open spec fn digit_val(c: char) -> int {
    c as int - 48
}

/// The value of a digit string, most significant first.
pub open spec fn digits_val(s: Seq<char>) -> int
    decreases s.len(),
{
    if s.len() == 0 {
        0
    } else {
        digits_val(s.drop_last()) * 10 + digit_val(s.last())
    }
}

/// What a decimal text denotes: an optional sign followed by at least one
/// digit, as std's integer parsing reads it; anything else denotes nothing.
pub open spec fn int_of_str(s: Seq<char>) -> Option<int> {
    if s.len() > 0 && (s[0] == '+' || s[0] == '-') {
        let rest = s.drop_first();
        if rest.len() > 0 && (forall|i: int| 0 <= i < rest.len() ==> is_digit(#[trigger] rest[i])) {
            Some(
                if s[0] == '-' {
                    -digits_val(rest)
                } else {
                    digits_val(rest)
                },
            )
        } else {
            None
        }
    } else if s.len() > 0 && (forall|i: int| 0 <= i < s.len() ==> is_digit(#[trigger] s[i])) {
        Some(digits_val(s))
    } else {
        None
    }
}

proof fn lemma_digits_val_nonneg(s: Seq<char>)
    requires
        forall|i: int| 0 <= i < s.len() ==> is_digit(#[trigger] s[i]),
    ensures
        digits_val(s) >= 0,
    decreases s.len(),
{
    if s.len() > 0 {
        lemma_digits_val_nonneg(s.drop_last());
        assert(is_digit(s.last()));
        assert(digits_val(s.drop_last()) * 10 >= 0) by (nonlinear_arith)
            requires
                digits_val(s.drop_last()) >= 0,
        ;
    }
}

/// Once a digit prefix exceeds a bound, the whole string does.
proof fn lemma_digits_val_grows(s: Seq<char>, i: int)
    requires
        forall|j: int| 0 <= j < s.len() ==> is_digit(#[trigger] s[j]),
        0 <= i <= s.len(),
    ensures
        digits_val(s) >= digits_val(s.take(i)),
    decreases s.len() - i,
{
    if i < s.len() {
        lemma_digits_val_grows(s, i + 1);
        lemma_digits_val_nonneg(s.take(i));
        assert(s.take(i + 1).drop_last() =~= s.take(i));
        assert(s.take(i + 1).last() == s[i]);
        assert(is_digit(s[i]));
        assert(digits_val(s.take(i + 1)) >= digits_val(s.take(i))) by (nonlinear_arith)
            requires
                digits_val(s.take(i + 1)) == digits_val(s.take(i)) * 10 + digit_val(s.take(
                    i + 1,
                ).last()),
                digits_val(s.take(i)) >= 0,
                digit_val(s.take(i + 1).last()) >= 0,
        ;
    } else {
        assert(s.take(i) =~= s);
    }
}

/// Reads the digits of a slice into a bounded magnitude; nothing when a
/// character is not a digit or the value exceeds the bound.
fn parse_digits(s: &str, from: usize, limit: u64) -> (r: Option<u64>)
    requires
        from <= s@.len(),
        limit >= 9,
    ensures
        ({
            let ds = s@.skip(from as int);
            match r {
                Some(m) => ds.len() > 0 && (forall|i: int|
                    0 <= i < ds.len() ==> is_digit(#[trigger] ds[i])) && m == digits_val(ds) && m
                    <= limit,
                None => ds.len() == 0 || !(forall|i: int|
                    0 <= i < ds.len() ==> is_digit(#[trigger] ds[i])) || digits_val(ds) > limit,
            }
        }),
{
    let ghost ds = s@.skip(from as int);
    let n = s.unicode_len();
    if from == n {
        return None;
    }
    let mut acc: u64 = 0;
    let mut i: usize = from;
    while i < n
        invariant
            n == s@.len(),
            from <= i <= n,
            from < n,
            ds == s@.skip(from as int),
            forall|j: int| 0 <= j < i - from ==> is_digit(#[trigger] ds[j]),
            acc == digits_val(ds.take(i - from)),
            acc <= limit,
            limit >= 9,
        decreases n - i,
    {
        proof {
            assert(ds[i - from] == s@[i as int]);
        }
        let c = s.get_char(i);
        if !(c >= '0' && c <= '9') {
            proof {
                assert(!is_digit(ds[i - from]));
            }
            return None;
        }
        let d: u64 = (c as u32 as u64) - 48;
        proof {
            assert(is_digit(ds[i - from]));
            assert(d == digit_val(ds[i - from]));
            assert(d <= 9);
        }
        if acc > (limit - d) / 10 {
            proof {
                assert(acc * 10 + d > limit) by (nonlinear_arith)
                    requires
                        acc > (limit - d) / 10,
                        d <= limit,
                        limit <= 0xffff_ffff_ffff_ffffu64,
                        acc >= 0,
                        d >= 0,
                ;
                assert(ds.take(i - from + 1).drop_last() =~= ds.take(i - from));
                assert(ds.take(i - from + 1).last() == ds[i - from]);
                assert(digits_val(ds.take(i - from + 1)) == acc * 10 + d);
                if forall|j: int| 0 <= j < ds.len() ==> is_digit(#[trigger] ds[j]) {
                    lemma_digits_val_grows(ds, i - from + 1);
                    assert(ds.take(ds.len() as int) =~= ds);
                    assert(digits_val(ds) > limit);
                }
            }
            return None;
        }
        proof {
            assert(acc * 10 + d <= limit) by (nonlinear_arith)
                requires
                    acc <= (limit - d) / 10,
                    d <= limit,
                    acc >= 0,
                    d >= 0,
            ;
            assert(ds.take(i - from + 1).drop_last() =~= ds.take(i - from));
            assert(ds.take(i - from + 1).last() == ds[i - from]);
        }
        acc = acc * 10 + d;
        i += 1;
    }
    proof {
        assert(ds.take(n - from) =~= ds);
    }
    Some(acc)
}

/// Reads a decimal integer as std's parsing does: an optional sign, then
/// digits; nothing when the text is malformed or out of the type's range.
pub fn parse_i64(s: &str) -> (r: Option<i64>)
    ensures
        match r {
            Some(n) => int_of_str(s@) == Some(n as int),
            None => match int_of_str(s@) {
                Some(v) => v < i64::MIN || v > i64::MAX,
                None => true,
            },
        },
{
    let n = s.unicode_len();
    if n == 0 {
        return None;
    }
    let c0 = s.get_char(0);
    if c0 == '-' {
        proof {
            assert(s@.skip(1) =~= s@.drop_first());
        }
        match parse_digits(s, 1, 9223372036854775808u64) {
            Some(m) => {
                let r: i64 = if m == 9223372036854775808u64 {
                    i64::MIN
                } else {
                    -(m as i64)
                };
                Some(r)
            },
            None => None,
        }
    } else if c0 == '+' {
        proof {
            assert(s@.skip(1) =~= s@.drop_first());
        }
        match parse_digits(s, 1, 9223372036854775807u64) {
            Some(m) => Some(m as i64),
            None => None,
        }
    } else {
        proof {
            assert(s@.skip(0) =~= s@);
        }
        match parse_digits(s, 0, 9223372036854775807u64) {
            Some(m) => Some(m as i64),
            None => None,
        }
    }
}

pub open spec fn digit_char(d: int) -> char {
    if d == 0 {
        '0'
    } else if d == 1 {
        '1'
    } else if d == 2 {
        '2'
    } else if d == 3 {
        '3'
    } else if d == 4 {
        '4'
    } else if d == 5 {
        '5'
    } else if d == 6 {
        '6'
    } else if d == 7 {
        '7'
    } else if d == 8 {
        '8'
    } else {
        '9'
    }
}

/// The decimal spelling of a nonnegative number.
pub open spec fn dec_str(m: int) -> Seq<char>
    decreases m,
{
    if m < 10 {
        seq![digit_char(m)]
    } else {
        dec_str(m / 10).push(digit_char(m % 10))
    }
}

/// The decimal spelling of an integer.
pub open spec fn dec_str_signed(v: int) -> Seq<char> {
    if v < 0 {
        seq!['-'] + dec_str(-v)
    } else {
        dec_str(v)
    }
}

fn digit_char_exec(d: u64) -> (r: char)
    requires
        d <= 9,
    ensures
        r == digit_char(d as int),
{
    if d == 0 {
        '0'
    } else if d == 1 {
        '1'
    } else if d == 2 {
        '2'
    } else if d == 3 {
        '3'
    } else if d == 4 {
        '4'
    } else if d == 5 {
        '5'
    } else if d == 6 {
        '6'
    } else if d == 7 {
        '7'
    } else if d == 8 {
        '8'
    } else {
        '9'
    }
}

fn dec_of_u64(m: u64) -> (r: String)
    ensures
        r@ == dec_str(m as int),
    decreases m,
{
    if m < 10 {
        let mut out = String::new();
        crate::strutil::push_char(&mut out, digit_char_exec(m));
        proof {
            assert(out@ =~= seq![digit_char(m as int)]);
        }
        out
    } else {
        let q = m / 10;
        let d = m % 10;
        let mut out = dec_of_u64(q);
        crate::strutil::push_char(&mut out, digit_char_exec(d));
        out
    }
}

/// Writes an integer in decimal.
pub fn i64_to_dec(n: i64) -> (r: String)
    requires
        n > i64::MIN,
    ensures
        r@ == dec_str_signed(n as int),
{
    if n < 0 {
        let mut out = String::new();
        crate::strutil::push_char(&mut out, '-');
        let m: u64 = (-n) as u64;
        let tail = dec_of_u64(m);
        out.append(tail.as_str());
        proof {
            assert(out@ =~= seq!['-'] + dec_str(m as int));
        }
        out
    } else {
        dec_of_u64(n as u64)
    }
}

// ---------------------------------------------------------------------------
// The sequence convention on save: bumping a revision counter signals a
// substantive change to attendees.
// ---------------------------------------------------------------------------

/// What saving does to one property value: a numeric `SEQUENCE` value gains
/// one; a non-numeric or extreme value stays as it is.
pub open spec fn bumped_value(v: Seq<char>) -> Seq<char> {
    match int_of_str(v) {
        Some(n) => if i64::MIN <= n < i64::MAX {
            dec_str_signed(n + 1)
        } else {
            v
        },
        None => v,
    }
}

pub open spec fn bumped_prop(p: PropSpec) -> PropSpec {
    if p.name == "SEQUENCE"@ {
        PropSpec { value: bumped_value(p.value), ..p }
    } else {
        p
    }
}

pub open spec fn event_kind(name: Seq<char>) -> bool {
    name == "VEVENT"@ || name == "VTODO"@
}

pub open spec fn bumped_node(n: IcalSpec) -> IcalSpec {
    if event_kind(n.name) {
        IcalSpec { props: Seq::new(n.props.len(), |i: int| bumped_prop(n.props[i])), ..n }
    } else {
        n
    }
}

/// What saving does to a tree: in every event or todo component directly
/// under the root, every numeric `SEQUENCE` property gains one.
pub open spec fn bumped_tree(t: IcalSpec) -> IcalSpec {
    IcalSpec { children: Seq::new(t.children.len(), |i: int| bumped_node(t.children[i])), ..t }
}

fn bump_props(props: &Vec<ical::Property>) -> (r: Vec<ical::Property>)
    ensures
        props_view(r@) == Seq::new(props_view(props@).len(), |i: int| bumped_prop(props_view(props@)[i])),
{
    broadcast use group_views;

    let ghost pv = props_view(props@);
    let mut out: Vec<ical::Property> = Vec::new();
    let n = props.len();
    let mut i: usize = 0;
    while i < n
        invariant
            n == props@.len(),
            pv == props_view(props@),
            0 <= i <= n,
            out@.len() == i,
            forall|j: int| 0 <= j < i ==> props_view(out@)[j] == bumped_prop(#[trigger] pv[j]),
        decreases n - i,
    {
        proof {
            assert(pv[i as int] == props@[i as int]@);
        }
        let p = &props[i];
        let bumped: ical::Property = if eq_str(p.name.as_str(), "SEQUENCE") {
            match parse_i64(p.value.as_str()) {
                Some(v) => {
                    if v < 9223372036854775807i64 {
                        let nv = i64_to_dec(v + 1);
                        ical::Property {
                            name: p.name.clone(),
                            value: nv,
                            attributes: clone_attrs(&p.attributes),
                        }
                    } else {
                        p.clone()
                    }
                },
                None => p.clone(),
            }
        } else {
            p.clone()
        };
        proof {
            assert(bumped@ =~= bumped_prop(pv[i as int]));
        }
        let ghost pre = out@;
        out.push(bumped);
        proof {
            assert forall|j: int| 0 <= j < i + 1 implies props_view(out@)[j] == bumped_prop(
                #[trigger] pv[j],
            ) by {
                assert(props_view(out@)[j] == out@[j]@);
                if j < i {
                    assert(out@[j] == pre[j]);
                    assert(props_view(pre)[j] == pre[j]@);
                }
            }
        }
        i += 1;
    }
    proof {
        assert(props_view(out@) =~= Seq::new(pv.len(), |j: int| bumped_prop(pv[j])));
    }
    out
}

fn clone_attrs(attrs: &Vec<ical::Attr>) -> (r: Vec<ical::Attr>)
    ensures
        attrs_view(r@) == attrs_view(attrs@),
{
    broadcast use group_views;

    let mut out: Vec<ical::Attr> = Vec::new();
    let n = attrs.len();
    let mut i: usize = 0;
    while i < n
        invariant
            n == attrs@.len(),
            0 <= i <= n,
            out@.len() == i,
            forall|j: int| 0 <= j < i ==> (#[trigger] out@[j])@ == attrs@[j]@,
        decreases n - i,
    {
        out.push(attrs[i].clone());
        i += 1;
    }
    proof {
        assert(attrs_view(out@) =~= attrs_view(attrs@));
    }
    out
}

/// Before transmission, every event or todo component directly under the
/// root gets its numeric `SEQUENCE` properties incremented by one.
pub fn bump_sequences(ical: &mut Ical)
    ensures
        ical_view(*final(ical)) == bumped_tree(ical_view(*old(ical))),
{
    broadcast use group_views;

    let ghost t = ical_view(*ical);
    let mut new_children: Vec<Ical> = Vec::new();
    let n = ical.children.len();
    let mut i: usize = 0;
    while i < n
        invariant
            n == ical.children@.len(),
            *ical == *old(ical),
            t == ical_view(*ical),
            0 <= i <= n,
            new_children@.len() == i,
            forall|j: int|
                0 <= j < i ==> ical_view(#[trigger] new_children@[j]) == bumped_node(t.children[j]),
        decreases n - i,
    {
        proof {
            assert(t.children[i as int] == ical_view(ical.children@[i as int]));
        }
        let child = &ical.children[i];
        let is_event = eq_str(child.name.as_str(), "VEVENT") || eq_str(child.name.as_str(), "VTODO");
        let new_child: Ical = if is_event {
            let props = bump_props(&child.properties);
            let kids = clone_children(&child.children);
            let ghost kv = kids@;
            let ghost prv = props@;
            let c = Ical { name: child.name.clone(), properties: props, children: kids };
            proof {
                assert(c.children@ == kv);
                assert(c.properties@ == prv);
                crate::views::lemma_ical_view_fields(c);
                crate::views::lemma_ical_view_fields(*child);
                assert(stack_view(c.children@) == stack_view(child.children@));
                assert(ical_view(c).children =~= ical_view(*child).children);
                assert(ical_view(c).props =~= bumped_node(ical_view(*child)).props);
                assert(ical_view(c) =~= bumped_node(ical_view(*child)));
            }
            c
        } else {
            let c = child.clone();
            proof {
                assert(ical_view(c) == bumped_node(ical_view(*child)));
            }
            c
        };
        new_children.push(new_child);
        i += 1;
    }
    ical.children = new_children;
    proof {
        assert(ical_view(*ical).children =~= bumped_tree(t).children);
        assert(ical_view(*ical) =~= bumped_tree(t));
    }
}

fn clone_children(children: &Vec<Ical>) -> (r: Vec<Ical>)
    ensures
        stack_view(r@) == stack_view(children@),
{
    broadcast use group_views;

    let mut out: Vec<Ical> = Vec::new();
    let n = children.len();
    let mut i: usize = 0;
    while i < n
        invariant
            n == children@.len(),
            0 <= i <= n,
            out@.len() == i,
            forall|j: int|
                0 <= j < i ==> ical_view(#[trigger] out@[j]) == ical_view(children@[j]),
        decreases n - i,
    {
        out.push(children[i].clone());
        i += 1;
    }
    proof {
        assert(stack_view(out@) =~= stack_view(children@));
    }
    out
}


// ---------------------------------------------------------------------------
// The result aggregator: each fetched component is parsed independently; a
// failure on one never hides the others.
// ---------------------------------------------------------------------------

#[verifier::ext_equal]
pub ghost struct EventSpec {
    pub url: Seq<char>,
    pub etag: Option<Seq<char>>,
    pub ical: IcalSpec,
}

pub open spec fn event_view(e: Event) -> EventSpec {
    EventSpec { url: e.url_spec(), etag: e.etag_spec(), ical: ical_view(e.ical_spec()) }
}

pub open spec fn events_view(s: Seq<Event>) -> Seq<EventSpec> {
    Seq::new(s.len(), |i: int| event_view(s[i]))
}

pub broadcast proof fn lemma_events_view_len(s: Seq<Event>)
    ensures
        (#[trigger] events_view(s)).len() == s.len(),
{
}

pub broadcast proof fn lemma_events_view_index(s: Seq<Event>, i: int)
    requires
        0 <= i < s.len(),
    ensures
        #[trigger] events_view(s)[i] == event_view(s[i]),
{
}

/// The outcome of parsing one fetched component's text.
pub open spec fn parsed_of(data: Seq<char>) -> Result<
    IcalSpec,
    crate::ical_model::ParseErrSpec,
> {
    crate::ical_model::parse_outcome(crate::ical_model::split_lines_spec(data))
}

/// The events of a batch: one per component whose text parses, in order.
pub open spec fn batch_events(rs: Seq<crate::caldav::CompRespSpec>) -> Seq<EventSpec>
    decreases rs.len(),
{
    if rs.len() == 0 {
        Seq::empty()
    } else {
        (match parsed_of(rs[0].data) {
            Ok(t) => seq![EventSpec { url: rs[0].url, etag: rs[0].etag, ical: t }],
            Err(_) => Seq::empty(),
        }) + batch_events(rs.drop_first())
    }
}

/// The failures of a batch: the raw text and the codec's message of each
/// component whose text does not parse, in order.
pub open spec fn batch_errors(rs: Seq<crate::caldav::CompRespSpec>) -> Seq<(Seq<char>, Seq<char>)>
    decreases rs.len(),
{
    if rs.len() == 0 {
        Seq::empty()
    } else {
        (match parsed_of(rs[0].data) {
            Ok(_) => Seq::empty(),
            Err(k) => seq![(rs[0].data, crate::ical_model::err_message_spec(k))],
        }) + batch_errors(rs.drop_first())
    }
}

/// The raw text and message carried by a list of per-component failures.
pub open spec fn err_pairs(es: Seq<crate::errors::MiniCaldavError>) -> Seq<(Seq<char>, Seq<char>)> {
    Seq::new(
        es.len(),
        |i: int|
            match es[i] {
                crate::errors::MiniCaldavError::CouldNotParseEvent(d, m) => (d@, m@),
                crate::errors::MiniCaldavError::CouldNotParseTodo(d, m) => (d@, m@),
                _ => (Seq::empty(), Seq::empty()),
            },
    )
}

/// Parses each fetched component independently: the parsed ones become
/// events, the failed ones become per-component event errors carrying the
/// raw text verbatim, and neither hides the other.
pub fn parse_batch(refs: Vec<crate::component::ComponentResponse>) -> (r: (
    Vec<Event>,
    Vec<crate::errors::MiniCaldavError>,
))
    ensures
        events_view(r.0@) == batch_events(crate::caldav::compresps_view(refs@)),
        err_pairs(r.1@) == batch_errors(crate::caldav::compresps_view(refs@)),
        forall|i: int|
            0 <= i < r.1@.len() ==> (#[trigger] r.1@[i]) matches
                crate::errors::MiniCaldavError::CouldNotParseEvent(_, _),
{
    parse_batch_tagged(refs, false)
}

/// As `parse_batch`, for a batch of fetched todos: the failures carry the
/// todo error variant.
pub fn parse_batch_todos(refs: Vec<crate::component::ComponentResponse>) -> (r: (
    Vec<Event>,
    Vec<crate::errors::MiniCaldavError>,
))
    ensures
        events_view(r.0@) == batch_events(crate::caldav::compresps_view(refs@)),
        err_pairs(r.1@) == batch_errors(crate::caldav::compresps_view(refs@)),
        forall|i: int|
            0 <= i < r.1@.len() ==> (#[trigger] r.1@[i]) matches
                crate::errors::MiniCaldavError::CouldNotParseTodo(_, _),
{
    parse_batch_tagged(refs, true)
}

fn parse_batch_tagged(refs: Vec<crate::component::ComponentResponse>, todos: bool) -> (r: (
    Vec<Event>,
    Vec<crate::errors::MiniCaldavError>,
))
    ensures
        events_view(r.0@) == batch_events(crate::caldav::compresps_view(refs@)),
        err_pairs(r.1@) == batch_errors(crate::caldav::compresps_view(refs@)),
        todos ==> forall|i: int|
            0 <= i < r.1@.len() ==> (#[trigger] r.1@[i]) matches
                crate::errors::MiniCaldavError::CouldNotParseTodo(_, _),
        !todos ==> forall|i: int|
            0 <= i < r.1@.len() ==> (#[trigger] r.1@[i]) matches
                crate::errors::MiniCaldavError::CouldNotParseEvent(_, _),
{
    broadcast use
        group_views,
        lemma_events_view_len,
        lemma_events_view_index,
        crate::caldav::lemma_compresps_view_len,
        crate::caldav::lemma_compresps_view_index;

    let ghost rv = crate::caldav::compresps_view(refs@);
    let mut events: Vec<Event> = Vec::new();
    let mut errors: Vec<crate::errors::MiniCaldavError> = Vec::new();
    let n = refs.len();
    let mut i: usize = 0;
    proof {
        assert(rv.skip(0) =~= rv);
        assert(events_view(events@) =~= Seq::<EventSpec>::empty());
        assert(err_pairs(errors@) =~= Seq::<(Seq<char>, Seq<char>)>::empty());
        assert(batch_events(rv) == events_view(events@) + batch_events(rv.skip(0)));
        assert(batch_errors(rv) == err_pairs(errors@) + batch_errors(rv.skip(0)));
    }
    while i < n
        invariant
            n == refs@.len(),
            rv == crate::caldav::compresps_view(refs@),
            0 <= i <= n,
            batch_events(rv) == events_view(events@) + batch_events(rv.skip(i as int)),
            batch_errors(rv) == err_pairs(errors@) + batch_errors(rv.skip(i as int)),
            todos ==> forall|j: int|
                0 <= j < errors@.len() ==> (#[trigger] errors@[j]) matches
                    crate::errors::MiniCaldavError::CouldNotParseTodo(_, _),
            !todos ==> forall|j: int|
                0 <= j < errors@.len() ==> (#[trigger] errors@[j]) matches
                    crate::errors::MiniCaldavError::CouldNotParseEvent(_, _),
        decreases n - i,
    {
        proof {
            assert(rv[i as int] == crate::caldav::compresp_view(refs@[i as int]));
            assert(rv.skip(i as int)[0] == rv[i as int]);
            assert(rv.skip(i as int).drop_first() =~= rv.skip(i + 1));
        }
        let item = &refs[i];
        let mut lines = crate::ical::LineIterator::new(item.data().as_str());
        match crate::ical::Ical::parse(&mut lines) {
            Ok(node) => {
                let ghost pre = events@;
                let tag: Option<String> = match item.etag() {
                    Some(t) => Some(t.clone()),
                    None => None,
                };
                events.push(Event { etag: tag, url: item.url().clone(), ical: node });
                proof {
                    assert(events_view(events@) =~= events_view(pre).push(
                        event_view(events@.last()),
                    ));
                    assert(event_view(events@.last()) =~= (EventSpec {
                        url: rv[i as int].url,
                        etag: rv[i as int].etag,
                        ical: parsed_of(rv[i as int].data)->Ok_0,
                    }));
                    assert(events_view(events@) + batch_events(rv.skip(i + 1)) =~= events_view(
                        pre,
                    ) + (seq![event_view(events@.last())] + batch_events(rv.skip(i + 1))));
                    assert(err_pairs(errors@) =~= err_pairs(errors@)
                        + Seq::<(Seq<char>, Seq<char>)>::empty());
                }
            },
            Err(e) => {
                let ghost pre = errors@;
                let tagged = if todos {
                    crate::errors::MiniCaldavError::CouldNotParseTodo(
                        item.data().clone(),
                        e.message,
                    )
                } else {
                    crate::errors::MiniCaldavError::CouldNotParseEvent(
                        item.data().clone(),
                        e.message,
                    )
                };
                errors.push(tagged);
                proof {
                    assert(err_pairs(errors@) =~= err_pairs(pre).push(
                        (rv[i as int].data, crate::ical_model::err_message_spec(
                            parsed_of(rv[i as int].data)->Err_0,
                        )),
                    ));
                    assert(err_pairs(errors@) + batch_errors(rv.skip(i + 1)) =~= err_pairs(pre)
                        + (seq![
                        (rv[i as int].data, crate::ical_model::err_message_spec(
                            parsed_of(rv[i as int].data)->Err_0,
                        )),
                    ] + batch_errors(rv.skip(i + 1))));
                    assert(events_view(events@) =~= events_view(events@)
                        + Seq::<EventSpec>::empty());
                }
            },
        }
        i += 1;
    }
    proof {
        assert(rv.skip(n as int) =~= Seq::<crate::caldav::CompRespSpec>::empty());
        assert(batch_events(rv.skip(n as int)) == Seq::<EventSpec>::empty());
        assert(batch_errors(rv.skip(n as int)) == Seq::<(Seq<char>, Seq<char>)>::empty());
        assert(events_view(events@) + Seq::<EventSpec>::empty() =~= events_view(events@));
        assert(err_pairs(errors@) + Seq::<(Seq<char>, Seq<char>)>::empty() =~= err_pairs(errors@));
    }
    (events, errors)
}


/// The wire text transmitted when an event is saved: its tree with the
/// revision counters bumped. The event keeps the bumped tree.
pub fn prepare_save(event: &mut Event) -> (r: String)
    ensures
        final(event).url_spec() == old(event).url_spec(),
        final(event).etag_spec() == old(event).etag_spec(),
        ical_view(final(event).ical_spec()) == bumped_tree(ical_view(old(event).ical_spec())),
        r@ == crate::ical_model::ical_serialized(bumped_tree(ical_view(old(event).ical_spec()))),
{
    bump_sequences(&mut event.ical);
    event.ical.serialize()
}

} // verus!
