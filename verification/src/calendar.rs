use vstd::prelude::*;

use crate::strutil::eq_str;

verus! {

/// What the enumerator learned of one remote calendar collection: created
/// fresh on every listing, never mutated.
#[derive(Debug, Clone)]
pub struct CalendarRef {
    pub url: String,
    pub name: String,
    pub color: Option<String>,
    pub privileges: Vec<String>,
    pub is_subscription: bool,
}

/// A remote CalDAV calendar together with the base address it was listed
/// from.
#[derive(Debug, Clone)]
pub struct Calendar {
    base_url: String,
    inner: CalendarRef,
}

impl Calendar {
    pub closed spec fn base_url_spec(&self) -> Seq<char> {
        self.base_url@
    }

    pub closed spec fn inner_spec(&self) -> CalendarRef {
        self.inner
    }

    pub fn new(base_url: String, inner: CalendarRef) -> (r: Self)
        ensures
            r.base_url_spec() == base_url@,
            r.inner_spec() == inner,
    {
        Calendar { base_url, inner }
    }

    pub fn url(&self) -> (r: &String)
        ensures
            r == self.inner_spec().url,
    {
        &self.inner.url
    }

    pub fn inner(&self) -> (r: &CalendarRef)
        ensures
            r == self.inner_spec(),
    {
        &self.inner
    }

    pub fn base_url(&self) -> (r: &String)
        ensures
            r@ == self.base_url_spec(),
    {
        &self.base_url
    }

    pub fn name(&self) -> (r: &String)
        ensures
            r == self.inner_spec().name,
    {
        &self.inner.name
    }

    pub fn color(&self) -> (r: Option<&String>)
        ensures
            match r {
                Some(c) => self.inner_spec().color == Some(*c),
                None => self.inner_spec().color is None,
            },
    {
        self.inner.color.as_ref()
    }

    /// Whether the server granted the `write` privilege on this calendar.
    pub fn writable(&self) -> (r: bool)
        ensures
            r == exists|i: int|
                0 <= i < self.inner_spec().privileges@.len() && (#[trigger] self.inner_spec(
                ).privileges@[i])@ == "write"@,
    {
        let n = self.inner.privileges.len();
        let mut i: usize = 0;
        while i < n
            invariant
                n == self.inner.privileges@.len(),
                0 <= i <= n,
                forall|j: int|
                    0 <= j < i ==> (#[trigger] self.inner.privileges@[j])@ != "write"@,
            decreases n - i,
        {
            if eq_str(self.inner.privileges[i].as_str(), "write") {
                return true;
            }
            i += 1;
        }
        false
    }

    pub fn is_subscription(&self) -> (r: bool)
        ensures
            r == self.inner_spec().is_subscription,
    {
        self.inner.is_subscription
    }
}

} // verus!
