use vstd::prelude::*;

use crate::ical::Ical;

verus! {

/// The view of an optional text.
pub open spec fn opt_view(o: Option<String>) -> Option<Seq<char>> {
    match o {
        Some(t) => Some(t@),
        None => None,
    }
}

/// A parsed calendar object: its address, the entity tag the server last
/// issued for it, and the parsed container tree.
#[derive(Debug, Clone)]
pub struct Component {
    url: String,
    etag: Option<String>,
    inner: Ical,
}

impl Component {
    pub closed spec fn url_spec(&self) -> Seq<char> {
        self.url@
    }

    pub closed spec fn etag_spec(&self) -> Option<Seq<char>> {
        opt_view(self.etag)
    }

    pub closed spec fn inner_spec(&self) -> Ical {
        self.inner
    }

    /// Construct a new component.
    pub fn new(url: String, etag: Option<String>, inner: Ical) -> (r: Self)
        ensures
            r.url_spec() == url@,
            r.etag_spec() == opt_view(etag),
            r.inner_spec() == inner,
    {
        Self { url, etag, inner }
    }

    pub fn url(&self) -> (r: &String)
        ensures
            r@ == self.url_spec(),
    {
        &self.url
    }

    pub fn set_url(&mut self, url: String)
        ensures
            final(self).url_spec() == url@,
            final(self).etag_spec() == old(self).etag_spec(),
            final(self).inner_spec() == old(self).inner_spec(),
    {
        self.url = url;
    }

    pub fn etag(&self) -> (r: Option<&String>)
        ensures
            match r {
                Some(t) => self.etag_spec() == Some(t@),
                None => self.etag_spec() is None,
            },
    {
        self.etag.as_ref()
    }

    pub fn set_etag(&mut self, etag: Option<String>)
        ensures
            final(self).etag_spec() == opt_view(etag),
            final(self).url_spec() == old(self).url_spec(),
            final(self).inner_spec() == old(self).inner_spec(),
    {
        self.etag = etag;
    }

    pub fn inner(&self) -> (r: &Ical)
        ensures
            r == self.inner_spec(),
    {
        &self.inner
    }

    pub fn inner_mut(&mut self) -> (r: &mut Ical)
        ensures
            *r == old(self).inner_spec(),
            final(self).inner_spec() == *final(r),
            final(self).url_spec() == old(self).url_spec(),
            final(self).etag_spec() == old(self).etag_spec(),
    {
        &mut self.inner
    }

    pub fn into_inner(self) -> (r: Ical)
        ensures
            r == self.inner_spec(),
    {
        self.inner
    }

    pub fn set_inner(&mut self, component: Ical)
        ensures
            final(self).inner_spec() == component,
            final(self).url_spec() == old(self).url_spec(),
            final(self).etag_spec() == old(self).etag_spec(),
    {
        self.inner = component;
    }
}

/// One fetched-but-not-yet-parsed calendar object: its address, its entity
/// tag if the server supplied one, and the raw wire text.
#[derive(Debug, Clone)]
pub struct ComponentResponse {
    url: String,
    etag: Option<String>,
    data: String,
}

impl ComponentResponse {
    pub closed spec fn url_spec(&self) -> Seq<char> {
        self.url@
    }

    pub closed spec fn etag_spec(&self) -> Option<Seq<char>> {
        opt_view(self.etag)
    }

    pub closed spec fn data_spec(&self) -> Seq<char> {
        self.data@
    }

    pub fn new(url: String, etag: Option<String>, data: String) -> (r: Self)
        ensures
            r.url_spec() == url@,
            r.etag_spec() == opt_view(etag),
            r.data_spec() == data@,
    {
        Self { url, etag, data }
    }

    pub fn url(&self) -> (r: &String)
        ensures
            r@ == self.url_spec(),
    {
        &self.url
    }

    pub fn etag(&self) -> (r: &Option<String>)
        ensures
            opt_view(*r) == self.etag_spec(),
    {
        &self.etag
    }

    pub fn data(&self) -> (r: &String)
        ensures
            r@ == self.data_spec(),
    {
        &self.data
    }
}

} // verus!
