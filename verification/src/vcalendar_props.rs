use vstd::prelude::*;

use crate::component::opt_view;
use crate::ical::Ical;
use crate::ical::props_find;
use crate::ical_model::find_prop;
use crate::strutil::eq_str;
use crate::views::group_views;
use crate::views::ical_view;
use crate::views::props_view;

pub use crate::component::ComponentResponse;

verus! {

/// Whether a container is of the given kind and its first property of the
/// given name has the given value.
pub open spec fn kind_prop_match(c: Ical, kind: Seq<char>, pname: Seq<char>, pval: Seq<char>) -> bool {
    let ps = ical_view(c).props;
    let j = find_prop(ps, pname);
    ical_view(c).name == kind && 0 <= j < ps.len() && ps[j].value == pval
}

/// Index of the first child matching `kind_prop_match`, or the length.
pub open spec fn find_kind_prop(
    cs: Seq<Ical>,
    kind: Seq<char>,
    pname: Seq<char>,
    pval: Seq<char>,
) -> int
    decreases cs.len(),
{
    if cs.len() == 0 {
        0
    } else if kind_prop_match(cs[0], kind, pname, pval) {
        0
    } else {
        1 + find_kind_prop(cs.drop_first(), kind, pname, pval)
    }
}

pub proof fn lemma_find_kind_prop(cs: Seq<Ical>, kind: Seq<char>, pname: Seq<char>, pval: Seq<char>)
    ensures
        0 <= find_kind_prop(cs, kind, pname, pval) <= cs.len(),
        find_kind_prop(cs, kind, pname, pval) < cs.len() ==> kind_prop_match(
            cs[find_kind_prop(cs, kind, pname, pval)],
            kind,
            pname,
            pval,
        ),
        forall|j: int|
            0 <= j < find_kind_prop(cs, kind, pname, pval) ==> !kind_prop_match(
                cs[j],
                kind,
                pname,
                pval,
            ),
    decreases cs.len(),
{
    if cs.len() > 0 && !kind_prop_match(cs[0], kind, pname, pval) {
        lemma_find_kind_prop(cs.drop_first(), kind, pname, pval);
        assert forall|j: int|
            0 <= j < find_kind_prop(cs, kind, pname, pval) implies !kind_prop_match(
            cs[j],
            kind,
            pname,
            pval,
        ) by {
            if j > 0 {
                assert(cs.drop_first()[j - 1] == cs[j]);
                assert(!kind_prop_match(cs.drop_first()[j - 1], kind, pname, pval));
            }
        }
    }
}

/// A parsed calendar object under its address and entity tag, offering
/// component lookup by identity properties.
#[derive(Debug, Clone)]
pub struct VCalendarProps {
    url: String,
    etag: Option<String>,
    inner: Ical,
}

impl VCalendarProps {
    pub closed spec fn url_spec(&self) -> Seq<char> {
        self.url@
    }

    pub closed spec fn etag_spec(&self) -> Option<Seq<char>> {
        opt_view(self.etag)
    }

    pub closed spec fn inner_spec(&self) -> Ical {
        self.inner
    }

    /// Construct a new wrapper.
    pub fn new(url: String, etag: Option<String>, inner: Ical) -> (r: Self)
        ensures
            r.url_spec() == url@,
            r.etag_spec() == opt_view(etag),
            r.inner_spec() == inner,
    {
        Self { url, etag, inner }
    }

    pub fn url(&self) -> (r: &String)
        ensures
            r@ == self.url_spec(),
    {
        &self.url
    }

    pub fn into_url(self) -> (r: String)
        ensures
            r@ == self.url_spec(),
    {
        self.url
    }

    pub fn set_url(&mut self, url: String)
        ensures
            final(self).url_spec() == url@,
            final(self).etag_spec() == old(self).etag_spec(),
            final(self).inner_spec() == old(self).inner_spec(),
    {
        self.url = url;
    }

    pub fn etag(&self) -> (r: Option<&String>)
        ensures
            match r {
                Some(t) => self.etag_spec() == Some(t@),
                None => self.etag_spec() is None,
            },
    {
        self.etag.as_ref()
    }

    pub fn set_etag(&mut self, etag: Option<String>)
        ensures
            final(self).etag_spec() == opt_view(etag),
            final(self).url_spec() == old(self).url_spec(),
            final(self).inner_spec() == old(self).inner_spec(),
    {
        self.etag = etag;
    }

    pub fn inner(&self) -> (r: &Ical)
        ensures
            r == self.inner_spec(),
    {
        &self.inner
    }

    pub fn inner_mut(&mut self) -> (r: &mut Ical)
        ensures
            *r == old(self).inner_spec(),
            final(self).inner_spec() == *final(r),
            final(self).url_spec() == old(self).url_spec(),
            final(self).etag_spec() == old(self).etag_spec(),
    {
        &mut self.inner
    }

    pub fn into_inner(self) -> (r: Ical)
        ensures
            r == self.inner_spec(),
    {
        self.inner
    }

    pub fn set_inner(&mut self, component: Ical)
        ensures
            final(self).inner_spec() == component,
            final(self).url_spec() == old(self).url_spec(),
            final(self).etag_spec() == old(self).etag_spec(),
    {
        self.inner = component;
    }

    /// Whether any todo component in this calendar has the given identity.
    pub fn contains_uid(&self, uid: &String) -> (r: bool)
        ensures
            r == exists|i: int|
                0 <= i < self.inner_spec().children@.len() && kind_prop_match(
                    #[trigger] self.inner_spec().children@[i],
                    "VTODO"@,
                    "UID"@,
                    uid@,
                ),
    {
        broadcast use group_views;

        let r = self.find_component("VTODO", "UID", uid.as_str());
        proof {
            lemma_find_kind_prop(self.inner_spec().children@, "VTODO"@, "UID"@, uid@);
        }
        match r {
            Some(i) => {
                proof {
                    assert(kind_prop_match(
                        self.inner_spec().children@[i as int],
                        "VTODO"@,
                        "UID"@,
                        uid@,
                    ));
                }
                true
            },
            None => {
                proof {
                    assert(forall|j: int|
                        0 <= j < self.inner_spec().children@.len() ==> !kind_prop_match(
                            #[trigger] self.inner_spec().children@[j],
                            "VTODO"@,
                            "UID"@,
                            uid@,
                        ));
                }
                false
            },
        }
    }

    /// Index of the first component of the given kind whose first property
    /// of the given name has the given value.
    fn find_component(&self, kind: &str, pname: &str, pval: &str) -> (r: Option<usize>)
        ensures
            ({
                let cs = self.inner_spec().children@;
                let i = find_kind_prop(cs, kind@, pname@, pval@);
                match r {
                    Some(j) => j == i && i < cs.len(),
                    None => i == cs.len(),
                }
            }),
    {
        broadcast use group_views;

        let n = self.inner.children.len();
        let mut i: usize = 0;
        while i < n
            invariant
                n == self.inner.children@.len(),
                0 <= i <= n,
                forall|j: int|
                    0 <= j < i ==> !kind_prop_match(
                        self.inner.children@[j],
                        kind@,
                        pname@,
                        pval@,
                    ),
            decreases n - i,
        {
            let node = &self.inner.children[i];
            let matched = if eq_str(node.name.as_str(), kind) {
                match props_find(&node.properties, pname) {
                    Some(j) => {
                        proof {
                            assert(props_view(node.properties@)[j as int] == node.properties@[
                                j as int
                            ]@);
                        }
                        eq_str(node.properties[j].value.as_str(), pval)
                    },
                    None => false,
                }
            } else {
                false
            };
            if matched {
                proof {
                    assert(kind_prop_match(self.inner.children@[i as int], kind@, pname@, pval@));
                    lemma_find_kind_prop(self.inner.children@, kind@, pname@, pval@);
                    assert(find_kind_prop(self.inner.children@, kind@, pname@, pval@) == i);
                }
                return Some(i);
            }
            proof {
                assert(!kind_prop_match(self.inner.children@[i as int], kind@, pname@, pval@));
            }
            i += 1;
        }
        proof {
            lemma_find_kind_prop(self.inner.children@, kind@, pname@, pval@);
            let f = find_kind_prop(self.inner.children@, kind@, pname@, pval@);
            if f < self.inner.children@.len() {
                assert(kind_prop_match(self.inner.children@[f], kind@, pname@, pval@));
            }
        }
        None
    }

    /// The first event component with the given identity.
    pub fn get_vevent(&self, uid: &String) -> (r: Option<&Ical>)
        ensures
            ({
                let cs = self.inner_spec().children@;
                let i = find_kind_prop(cs, "VEVENT"@, "UID"@, uid@);
                match r {
                    Some(c) => i < cs.len() && *c == cs[i],
                    None => i == cs.len(),
                }
            }),
    {
        match self.find_component("VEVENT", "UID", uid.as_str()) {
            Some(i) => Some(&self.inner.children[i]),
            None => None,
        }
    }

    /// The first event component with the given identity, for mutation.
    pub fn get_vevent_mut(&mut self, uid: &String) -> (r: Option<&mut Ical>)
        ensures
            final(self).url_spec() == old(self).url_spec(),
            final(self).etag_spec() == old(self).etag_spec(),
            ({
                let cs = old(self).inner_spec().children@;
                let i = find_kind_prop(cs, "VEVENT"@, "UID"@, uid@);
                match r {
                    Some(c) => i < cs.len() && *c == cs[i]
                        && final(self).inner_spec().name == old(self).inner_spec().name
                        && final(self).inner_spec().properties@ == old(
                        self,
                    ).inner_spec().properties@ && final(self).inner_spec().children@ == cs.update(
                        i,
                        *final(c),
                    ),
                    None => i == cs.len() && final(self).inner_spec() == old(self).inner_spec(),
                }
            }),
    {
        match self.find_component("VEVENT", "UID", uid.as_str()) {
            Some(i) => {
                let c = vstd::std_specs::vec::vec_index_mut(&mut self.inner.children, i);
                Some(c)
            },
            None => None,
        }
    }

    /// The first event component whose first `RECURRENCE-ID` property has
    /// the given value.
    pub fn get_vevent_by_recurence_id(&self, recurrence_id: &String) -> (r: Option<&Ical>)
        ensures
            ({
                let cs = self.inner_spec().children@;
                let i = find_kind_prop(cs, "VEVENT"@, "RECURRENCE-ID"@, recurrence_id@);
                match r {
                    Some(c) => i < cs.len() && *c == cs[i],
                    None => i == cs.len(),
                }
            }),
    {
        match self.find_component("VEVENT", "RECURRENCE-ID", recurrence_id.as_str()) {
            Some(i) => Some(&self.inner.children[i]),
            None => None,
        }
    }

    /// The first event component whose first `RECURRENCE-ID` property has
    /// the given value, for mutation.
    pub fn get_vevent_by_recurence_id_mut(&mut self, recurrence_id: &String) -> (r: Option<
        &mut Ical,
    >)
        ensures
            final(self).url_spec() == old(self).url_spec(),
            final(self).etag_spec() == old(self).etag_spec(),
            ({
                let cs = old(self).inner_spec().children@;
                let i = find_kind_prop(cs, "VEVENT"@, "RECURRENCE-ID"@, recurrence_id@);
                match r {
                    Some(c) => i < cs.len() && *c == cs[i]
                        && final(self).inner_spec().name == old(self).inner_spec().name
                        && final(self).inner_spec().properties@ == old(
                        self,
                    ).inner_spec().properties@ && final(self).inner_spec().children@ == cs.update(
                        i,
                        *final(c),
                    ),
                    None => i == cs.len() && final(self).inner_spec() == old(self).inner_spec(),
                }
            }),
    {
        match self.find_component("VEVENT", "RECURRENCE-ID", recurrence_id.as_str()) {
            Some(i) => {
                let c = vstd::std_specs::vec::vec_index_mut(&mut self.inner.children, i);
                Some(c)
            },
            None => None,
        }
    }
}

} // verus!
