use vstd::prelude::*;

use crate::calendar::CalendarRef;
use crate::component::ComponentResponse;
use crate::component::opt_view;
use crate::errors::MiniCaldavError;
use crate::ical::attr_lookup_spec;
use crate::strutil::push_char;
use crate::views::strs_view;
use crate::views::lemma_strs_view_index;
use crate::views::lemma_strs_view_len;
use crate::xml::Element;
use crate::xml::ElementSpec;
use crate::xml::descend;
use crate::xml::el_view;
use crate::xml::find_elem;
use crate::xml::group_xml_views;
use crate::xml::lemma_find_elem;
use crate::xml::lemma_path_view_index;
use crate::xml::lemma_path_view_len;
use crate::xml::path_view;
use crate::xml::text_of;

verus! {

// ---------------------------------------------------------------------------
// Resolving references against a base address.
// ---------------------------------------------------------------------------

/// What resolving a reference against a base address returns, when it can be
/// resolved at all.
pub uninterp spec fn url_join(base: Seq<char>, href: Seq<char>) -> Option<Seq<char>>;

/// Relies on url::Url::parse and url::Url::join: resolving a possibly
/// relative reference against a base address; the outcome depends on the two
/// texts alone.
#[verifier::external_body]
fn join_url(base: &str, href: &str) -> (r: Result<String, String>)
    ensures
        match r {
            Ok(u) => url_join(base@, href@) == Some(u@),
            Err(_) => url_join(base@, href@) is None,
        },
{
    match url::Url::parse(base) {
        Ok(b) => match b.join(href) {
            Ok(u) => Ok(String::from(u.as_str())),
            Err(e) => Err(e.to_string()),
        },
        Err(e) => Err(e.to_string()),
    }
}

/// The discovery fallback: where a resolution step failed, the caller's base
/// address takes its place, and listing goes on rather than aborting.
pub fn fallback_url(result: Result<String, MiniCaldavError>, base: &str) -> (r: String)
    ensures
        match result {
            Ok(u) => r@ == u@,
            Err(_) => r@ == base@,
        },
{
    match result {
        Ok(u) => u,
        Err(_) => base.to_owned(),
    }
}

// ---------------------------------------------------------------------------
// Reading the answer to a property request.
// ---------------------------------------------------------------------------

pub open spec fn path_joined(path: Seq<Seq<char>>) -> Seq<char> {
    if path.len() == 0 {
        Seq::empty()
    } else {
        path.first() + slash_join(path.drop_first())
    }
}

pub open spec fn slash_join(path: Seq<Seq<char>>) -> Seq<char>
    decreases path.len(),
{
    if path.len() == 0 {
        Seq::empty()
    } else {
        seq!['/'] + path[0] + slash_join(path.drop_first())
    }
}

proof fn lemma_slash_join_concat(a: Seq<Seq<char>>, b: Seq<Seq<char>>)
    ensures
        slash_join(a + b) == slash_join(a) + slash_join(b),
    decreases a.len(),
{
    if a.len() == 0 {
        assert(a + b =~= b);
        assert(slash_join(a) + slash_join(b) =~= slash_join(b));
    } else {
        assert((a + b)[0] == a[0]);
        assert((a + b).drop_first() =~= a.drop_first() + b);
        lemma_slash_join_concat(a.drop_first(), b);
        assert(slash_join(a + b) =~= slash_join(a) + slash_join(b));
    }
}

/// The path, joined with '/' between the names.
fn join_path_names(path: &[&str]) -> (r: String)
    ensures
        r@ == path_joined(path_view(path@)),
{
    broadcast use lemma_path_view_len, lemma_path_view_index;

    let ghost pv = path_view(path@);
    let n = path.len();
    if n == 0 {
        let empty = String::new();
        proof {
            assert(empty@ =~= path_joined(pv));
        }
        return empty;
    }
    let first: &str = path[0];
    let mut out = first.to_owned();
    proof {
        assert(pv.drop_first().take(0) =~= Seq::<Seq<char>>::empty());
        assert(out@ =~= pv.first() + slash_join(pv.drop_first().take(0)));
    }
    let mut i: usize = 1;
    while i < n
        invariant
            n == path@.len(),
            pv == path_view(path@),
            n >= 1,
            1 <= i <= n,
            out@ == pv.first() + slash_join(pv.drop_first().take(i - 1)),
        decreases n - i,
    {
        proof {
            lemma_slash_join_concat(pv.drop_first().take(i - 1), seq![pv[i as int]]);
            assert(pv.drop_first().take(i as int) =~= pv.drop_first().take(i - 1)
                + seq![pv[i as int]]);
            assert(slash_join(seq![pv[i as int]]) =~= seq!['/'] + pv[i as int]) by {
                assert(seq![pv[i as int]][0] == pv[i as int]);
                assert(seq![pv[i as int]].drop_first() =~= Seq::<Seq<char>>::empty());
                assert(slash_join(seq![pv[i as int]]) == seq!['/'] + pv[i as int] + slash_join(
                    Seq::<Seq<char>>::empty(),
                ));
                assert(slash_join(Seq::<Seq<char>>::empty()) == Seq::<char>::empty());
            }
        }
        push_char(&mut out, '/');
        let piece: &str = path[i];
        out.append(piece);
        proof {
            assert(out@ =~= pv.first() + slash_join(pv.drop_first().take(i as int)));
        }
        i += 1;
    }
    proof {
        assert(pv.drop_first().take(n - 1) =~= pv.drop_first());
    }
    out
}

/// The text at a fixed path of child elements in a response, or the error
/// that discovery recovers from by falling back. The text may be empty when
/// the element at the path holds none.
pub fn propfind_path_text(root: &Element, path: &[&str]) -> (r: Result<String, MiniCaldavError>)
    ensures
        ({
            let d = descend(el_view(*root), path_view(path@));
            match (r, d) {
                (Ok(t), Some(el)) => t@ == el.text,
                (Err(e), None) => e matches MiniCaldavError::PathNotExists(m) && m@ == path_joined(
                    path_view(path@),
                ),
                _ => false,
            }
        }),
{
    match root.walk(path) {
        Some(el) => Ok(el.text.clone()),
        None => Err(MiniCaldavError::PathNotExists(join_path_names(path))),
    }
}

/// The element path where a principal response carries its reference.
pub open spec fn principal_path() -> Seq<Seq<char>> {
    seq!["response"@, "propstat"@, "prop"@, "current-user-principal"@, "href"@]
}

/// The element path where a home-set response carries its reference.
pub open spec fn home_set_path() -> Seq<Seq<char>> {
    seq!["response"@, "propstat"@, "prop"@, "calendar-home-set"@, "href"@]
}

/// Reads the current-user-principal reference out of a response and resolves
/// it against the base address. Fails with `PathNotExists` when the response
/// lacks the property (the caller then falls back to the base address), and
/// with `CouldNotJoinUrl` when the reference cannot be resolved.
pub fn principal_url_from(root: &Element, base_url: &str) -> (r: Result<String, MiniCaldavError>)
    ensures
        ({
            let d = descend(el_view(*root), principal_path());
            match (r, d) {
                (Ok(u), Some(el)) => url_join(base_url@, el.text) == Some(u@),
                (Err(e), Some(el)) => url_join(base_url@, el.text) is None && e matches
                    MiniCaldavError::CouldNotJoinUrl(_),
                (Err(e), None) => e matches MiniCaldavError::PathNotExists(_),
                _ => false,
            }
        }),
{
    let path: [&str; 5] = ["response", "propstat", "prop", "current-user-principal", "href"];
    proof {
        broadcast use lemma_path_view_len, lemma_path_view_index;

        assert(path_view(path@) =~= principal_path());
    }
    resolve_href(root, &path, base_url)
}

/// Reads the calendar-home-set reference out of a response and resolves it
/// against the base address, as `principal_url_from` does for the principal.
pub fn home_set_url_from(root: &Element, base_url: &str) -> (r: Result<String, MiniCaldavError>)
    ensures
        ({
            let d = descend(el_view(*root), home_set_path());
            match (r, d) {
                (Ok(u), Some(el)) => url_join(base_url@, el.text) == Some(u@),
                (Err(e), Some(el)) => url_join(base_url@, el.text) is None && e matches
                    MiniCaldavError::CouldNotJoinUrl(_),
                (Err(e), None) => e matches MiniCaldavError::PathNotExists(_),
                _ => false,
            }
        }),
{
    let path: [&str; 5] = ["response", "propstat", "prop", "calendar-home-set", "href"];
    proof {
        broadcast use lemma_path_view_len, lemma_path_view_index;

        assert(path_view(path@) =~= home_set_path());
    }
    resolve_href(root, &path, base_url)
}

fn resolve_href(root: &Element, path: &[&str], base_url: &str) -> (r: Result<
    String,
    MiniCaldavError,
>)
    ensures
        ({
            let d = descend(el_view(*root), path_view(path@));
            match (r, d) {
                (Ok(u), Some(el)) => url_join(base_url@, el.text) == Some(u@),
                (Err(e), Some(el)) => url_join(base_url@, el.text) is None && e matches
                    MiniCaldavError::CouldNotJoinUrl(_),
                (Err(e), None) => e matches MiniCaldavError::PathNotExists(_),
                _ => false,
            }
        }),
{
    match propfind_path_text(root, path) {
        Ok(href) => match join_url(base_url, href.as_str()) {
            Ok(u) => Ok(u),
            Err(m) => Err(MiniCaldavError::CouldNotJoinUrl(m)),
        },
        Err(e) => Err(e),
    }
}


// ---------------------------------------------------------------------------
// Filtering a listing response into calendar descriptors.
// ---------------------------------------------------------------------------

#[verifier::ext_equal]
pub ghost struct CalRefSpec {
    pub url: Seq<char>,
    pub name: Seq<char>,
    pub color: Option<Seq<char>>,
    pub privileges: Seq<Seq<char>>,
    pub is_subscription: bool,
}

pub open spec fn calref_view(c: CalendarRef) -> CalRefSpec {
    CalRefSpec {
        url: c.url@,
        name: c.name@,
        color: opt_view(c.color),
        privileges: strs_view(c.privileges@),
        is_subscription: c.is_subscription,
    }
}

pub open spec fn calrefs_view(s: Seq<CalendarRef>) -> Seq<CalRefSpec> {
    Seq::new(s.len(), |i: int| calref_view(s[i]))
}

pub broadcast proof fn lemma_calrefs_view_len(s: Seq<CalendarRef>)
    ensures
        (#[trigger] calrefs_view(s)).len() == s.len(),
{
}

pub broadcast proof fn lemma_calrefs_view_index(s: Seq<CalendarRef>, i: int)
    requires
        0 <= i < s.len(),
    ensures
        #[trigger] calrefs_view(s)[i] == calref_view(s[i]),
{
}

/// The property element of one multistatus entry: `propstat/prop/<name>`.
pub open spec fn prop_el(resp: ElementSpec, name: Seq<char>) -> Option<ElementSpec> {
    descend(resp, seq!["propstat"@, "prop"@, name])
}

pub open spec fn opt_text(o: Option<ElementSpec>) -> Option<Seq<char>> {
    match o {
        Some(e) => text_of(e),
        None => None,
    }
}

pub open spec fn child_el(el: ElementSpec, name: Seq<char>) -> Option<ElementSpec> {
    let i = find_elem(el.children, name);
    if 0 <= i < el.children.len() {
        Some(el.children[i])
    } else {
        None
    }
}

pub open spec fn has_child_named(el: ElementSpec, name: Seq<char>) -> bool {
    child_el(el, name) is Some
}

pub open spec fn resp_is_calendar(resp: ElementSpec) -> bool {
    match prop_el(resp, "resourcetype"@) {
        Some(e) => has_child_named(e, "calendar"@),
        None => false,
    }
}

pub open spec fn resp_is_subscription(resp: ElementSpec) -> bool {
    match prop_el(resp, "resourcetype"@) {
        Some(e) => has_child_named(e, "subscribed"@),
        None => false,
    }
}

pub open spec fn comp_matches(c: ElementSpec) -> bool {
    c.name == "comp"@ && (attr_lookup_spec(c.attrs, "name"@) == Some("VEVENT"@)
        || attr_lookup_spec(c.attrs, "name"@) == Some("VTODO"@))
}

pub open spec fn has_comp_match(e: ElementSpec) -> bool {
    exists|i: int| 0 <= i < e.children.len() && comp_matches(#[trigger] e.children[i])
}

/// Whether the entry advertises support for events or todos.
pub open spec fn resp_supports_components(resp: ElementSpec) -> bool {
    match prop_el(resp, "supported-calendar-component-set"@) {
        Some(e) => has_comp_match(e),
        None => false,
    }
}

pub open spec fn resp_href(resp: ElementSpec) -> Option<Seq<char>> {
    opt_text(child_el(resp, "href"@))
}

pub open spec fn resp_name(resp: ElementSpec) -> Option<Seq<char>> {
    opt_text(prop_el(resp, "displayname"@))
}

pub open spec fn resp_color(resp: ElementSpec) -> Option<Seq<char>> {
    opt_text(prop_el(resp, "calendar-color"@))
}

pub open spec fn names_of(cs: Seq<ElementSpec>) -> Seq<Seq<char>>
    decreases cs.len(),
{
    if cs.len() == 0 {
        Seq::empty()
    } else {
        seq![cs[0].name] + names_of(cs.drop_first())
    }
}

pub open spec fn priv_names(ps: Seq<ElementSpec>) -> Seq<Seq<char>>
    decreases ps.len(),
{
    if ps.len() == 0 {
        Seq::empty()
    } else {
        names_of(ps[0].children) + priv_names(ps.drop_first())
    }
}

/// The granted privilege names of one entry: the grandchild names under
/// `current-user-privilege-set`.
pub open spec fn resp_privileges(resp: ElementSpec) -> Seq<Seq<char>> {
    match prop_el(resp, "current-user-privilege-set"@) {
        Some(e) => priv_names(e.children),
        None => Seq::empty(),
    }
}

/// An entry is a candidate when its resource type marks a calendar or a
/// subscription, it advertises event or todo support, and it carries both a
/// reference and a display name.
pub open spec fn resp_candidate(resp: ElementSpec) -> bool {
    &&& resp_is_calendar(resp) || resp_is_subscription(resp)
    &&& resp_supports_components(resp)
    &&& resp_href(resp) is Some
    &&& resp_name(resp) is Some
}

/// The descriptors a listing response yields: one per candidate entry whose
/// reference resolves against the base address; all others are skipped.
pub open spec fn calendar_refs_spec(rs: Seq<ElementSpec>, base: Seq<char>) -> Seq<CalRefSpec>
    decreases rs.len(),
{
    if rs.len() == 0 {
        Seq::empty()
    } else {
        let head: Seq<CalRefSpec> = if resp_candidate(rs[0]) {
            match url_join(base, resp_href(rs[0])->Some_0) {
                Some(u) => seq![
                    CalRefSpec {
                        url: u,
                        name: resp_name(rs[0])->Some_0,
                        color: resp_color(rs[0]),
                        privileges: resp_privileges(rs[0]),
                        is_subscription: resp_is_subscription(rs[0]),
                    },
                ],
                None => Seq::empty(),
            }
        } else {
            Seq::empty()
        };
        head + calendar_refs_spec(rs.drop_first(), base)
    }
}

/// The `propstat/prop/<name>` element of an entry.
fn prop_child<'a>(resp: &'a Element, name: &str) -> (r: Option<&'a Element>)
    ensures
        match r {
            Some(e) => prop_el(el_view(*resp), name@) == Some(el_view(*e)),
            None => prop_el(el_view(*resp), name@) is None,
        },
{
    let path: [&str; 3] = ["propstat", "prop", name];
    proof {
        broadcast use lemma_path_view_len, lemma_path_view_index;

        assert(path_view(path@) =~= seq!["propstat"@, "prop"@, name@]);
    }
    resp.walk(&path)
}

/// The text of `propstat/prop/<name>`, owned.
fn prop_text(resp: &Element, name: &str) -> (r: Option<String>)
    ensures
        opt_view(r) == opt_text(prop_el(el_view(*resp), name@)),
{
    match prop_child(resp, name) {
        Some(e) => match e.get_text() {
            Some(t) => Some(t.clone()),
            None => None,
        },
        None => None,
    }
}

fn child_text(el: &Element, name: &str) -> (r: Option<String>)
    ensures
        opt_view(r) == opt_text(child_el(el_view(*el), name@)),
{
    proof {
        lemma_find_elem(el_view(*el).children, name@);
    }
    match el.get_child(name) {
        Some(e) => match e.get_text() {
            Some(t) => Some(t.clone()),
            None => None,
        },
        None => None,
    }
}

fn resourcetype_has(resp: &Element, kind: &str) -> (r: bool)
    ensures
        r == match prop_el(el_view(*resp), "resourcetype"@) {
            Some(e) => has_child_named(e, kind@),
            None => false,
        },
{
    match prop_child(resp, "resourcetype") {
        Some(e) => {
            proof {
                lemma_find_elem(el_view(*e).children, kind@);
            }
            e.get_child(kind).is_some()
        },
        None => false,
    }
}

/// Whether the entry's supported component set lists events or todos.
fn supports_components(resp: &Element) -> (r: bool)
    ensures
        r == resp_supports_components(el_view(*resp)),
{
    broadcast use group_xml_views;

    match prop_child(resp, "supported-calendar-component-set") {
        Some(e) => {
            let ghost ev = el_view(*e);
            let n = e.children.len();
            let mut i: usize = 0;
            while i < n
                invariant
                    n == e.children@.len(),
                    ev == el_view(*e),
                    prop_el(el_view(*resp), "supported-calendar-component-set"@) == Some(ev),
                    0 <= i <= n,
                    forall|j: int| 0 <= j < i ==> !comp_matches(#[trigger] ev.children[j]),
                decreases n - i,
            {
                proof {
                    assert(ev.children[i as int] == el_view(e.children@[i as int]));
                }
                let c = &e.children[i];
                if crate::strutil::eq_str(c.name.as_str(), "comp") {
                    let is_match = match c.attribute("name") {
                        Some(v) => crate::strutil::eq_str(v.as_str(), "VEVENT")
                            || crate::strutil::eq_str(v.as_str(), "VTODO"),
                        None => false,
                    };
                    proof {
                        crate::ical::lemma_find_attr(el_view(*c).attrs, "name"@);
                    }
                    if is_match {
                        proof {
                            assert(comp_matches(ev.children[i as int]));
                            assert(prop_el(el_view(*resp), "supported-calendar-component-set"@)
                                == Some(ev));
                            assert(has_comp_match(ev)) by {
                                assert((i as int) < ev.children.len() && comp_matches(
                                    ev.children[i as int],
                                ));
                            }
                            assert(resp_supports_components(el_view(*resp)));
                        }
                        return true;
                    }
                    proof {
                        assert(!comp_matches(ev.children[i as int]));
                    }
                } else {
                    proof {
                        assert(!comp_matches(ev.children[i as int]));
                    }
                }
                i += 1;
            }
            proof {
                assert(!has_comp_match(ev));
            }
            false
        },
        None => false,
    }
}

/// The privilege names of one entry, in order.
fn privileges_of(resp: &Element) -> (r: Vec<String>)
    ensures
        strs_view(r@) == resp_privileges(el_view(*resp)),
{
    broadcast use group_xml_views, lemma_strs_view_len, lemma_strs_view_index;

    let mut out: Vec<String> = Vec::new();
    match prop_child(resp, "current-user-privilege-set") {
        Some(e) => {
            let ghost ev = el_view(*e);
            let n = e.children.len();
            let mut i: usize = 0;
            proof {
                assert(ev.children.take(0) =~= Seq::<ElementSpec>::empty());
                assert(strs_view(out@) =~= priv_names(ev.children.take(0)));
            }
            while i < n
                invariant
                    n == e.children@.len(),
                    ev == el_view(*e),
                    0 <= i <= n,
                    strs_view(out@) == priv_names(ev.children.take(i as int)),
                decreases n - i,
            {
                proof {
                    assert(ev.children[i as int] == el_view(e.children@[i as int]));
                }
                let p = &e.children[i];
                let ghost pv = el_view(*p);
                let m = p.children.len();
                let mut k: usize = 0;
                proof {
                    assert(pv.children.take(0) =~= Seq::<ElementSpec>::empty());
                    assert(names_of(pv.children.take(0)) =~= Seq::<Seq<char>>::empty());
                    assert(strs_view(out@) + names_of(pv.children.take(0)) =~= strs_view(out@));
                }
                let ghost base_out = strs_view(out@);
                while k < m
                    invariant
                        m == p.children@.len(),
                        pv == el_view(*p),
                        0 <= k <= m,
                        strs_view(out@) == base_out + names_of(pv.children.take(k as int)),
                    decreases m - k,
                {
                    proof {
                        assert(pv.children[k as int] == el_view(p.children@[k as int]));
                        lemma_names_of_concat(pv.children.take(k as int), seq![pv.children[k as int]]);
                        assert(pv.children.take(k + 1) =~= pv.children.take(k as int)
                            + seq![pv.children[k as int]]);
                        assert(names_of(seq![pv.children[k as int]]) =~= seq![pv.children[k as int].name])
                            by {
                            assert(seq![pv.children[k as int]][0] == pv.children[k as int]);
                            assert(seq![pv.children[k as int]].drop_first()
                                =~= Seq::<ElementSpec>::empty());
                            assert(names_of(seq![pv.children[k as int]])
                                == seq![pv.children[k as int].name] + names_of(
                                Seq::<ElementSpec>::empty(),
                            ));
                            assert(names_of(Seq::<ElementSpec>::empty()) == Seq::<Seq<char>>::empty());
                        }
                    }
                    let ghost pre = out@;
                    out.push(p.children[k].name.clone());
                    proof {
                        let nm = pv.children[k as int].name;
                        assert(base_out + names_of(pv.children.take(k + 1)) =~= strs_view(pre).push(
                            nm,
                        ));
                        assert forall|j: int|
                            0 <= j < out@.len() implies strs_view(out@)[j] == strs_view(pre).push(
                            nm,
                        )[j] by {
                            assert(strs_view(out@)[j] == out@[j]@);
                            if j < pre.len() {
                                assert(out@[j] == pre[j]);
                                assert(strs_view(pre)[j] == pre[j]@);
                            }
                        }
                        assert(strs_view(out@) =~= strs_view(pre).push(nm));
                        assert(strs_view(out@) =~= base_out + names_of(pv.children.take(k + 1)));
                    }
                    k += 1;
                }
                proof {
                    assert(pv.children.take(m as int) =~= pv.children);
                    lemma_priv_names_concat(ev.children.take(i as int), seq![ev.children[i as int]]);
                    assert(ev.children.take(i + 1) =~= ev.children.take(i as int)
                        + seq![ev.children[i as int]]);
                    assert(priv_names(seq![ev.children[i as int]]) =~= names_of(
                        ev.children[i as int].children,
                    )) by {
                        assert(seq![ev.children[i as int]][0] == ev.children[i as int]);
                        assert(seq![ev.children[i as int]].drop_first()
                            =~= Seq::<ElementSpec>::empty());
                        assert(priv_names(seq![ev.children[i as int]]) == names_of(
                            ev.children[i as int].children,
                        ) + priv_names(Seq::<ElementSpec>::empty()));
                        assert(priv_names(Seq::<ElementSpec>::empty()) == Seq::<Seq<char>>::empty());
                    }
                    assert(strs_view(out@) =~= priv_names(ev.children.take(i + 1)));
                }
                i += 1;
            }
            proof {
                assert(ev.children.take(n as int) =~= ev.children);
            }
            out
        },
        None => {
            proof {
                assert(strs_view(out@) =~= Seq::<Seq<char>>::empty());
            }
            out
        },
    }
}

proof fn lemma_names_of_concat(a: Seq<ElementSpec>, b: Seq<ElementSpec>)
    ensures
        names_of(a + b) == names_of(a) + names_of(b),
    decreases a.len(),
{
    if a.len() == 0 {
        assert(a + b =~= b);
        assert(names_of(a) + names_of(b) =~= names_of(b));
    } else {
        assert((a + b)[0] == a[0]);
        assert((a + b).drop_first() =~= a.drop_first() + b);
        lemma_names_of_concat(a.drop_first(), b);
        assert(names_of(a + b) =~= names_of(a) + names_of(b));
    }
}

proof fn lemma_priv_names_concat(a: Seq<ElementSpec>, b: Seq<ElementSpec>)
    ensures
        priv_names(a + b) == priv_names(a) + priv_names(b),
    decreases a.len(),
{
    if a.len() == 0 {
        assert(a + b =~= b);
        assert(priv_names(a) + priv_names(b) =~= priv_names(b));
    } else {
        assert((a + b)[0] == a[0]);
        assert((a + b).drop_first() =~= a.drop_first() + b);
        lemma_priv_names_concat(a.drop_first(), b);
        assert(priv_names(a + b) =~= priv_names(a) + priv_names(b));
    }
}

/// Filters a multistatus listing response into calendar descriptors: one per
/// entry that marks a calendar or subscription, advertises event or todo
/// support, and carries a resolvable reference and a display name. All other
/// entries are skipped, never an error.
pub fn parse_calendar_refs(root: &Element, base_url: &str) -> (r: Vec<CalendarRef>)
    ensures
        calrefs_view(r@) == calendar_refs_spec(el_view(*root).children, base_url@),
{
    broadcast use group_xml_views, lemma_calrefs_view_len, lemma_calrefs_view_index;

    let ghost rv = el_view(*root).children;
    let mut out: Vec<CalendarRef> = Vec::new();
    let n = root.children.len();
    let mut i: usize = 0;
    proof {
        assert(rv.skip(0) =~= rv);
        assert(calrefs_view(out@) =~= Seq::<CalRefSpec>::empty());
        assert(calendar_refs_spec(rv, base_url@) == calrefs_view(out@) + calendar_refs_spec(
            rv.skip(0),
            base_url@,
        ));
    }
    while i < n
        invariant
            n == root.children@.len(),
            rv == el_view(*root).children,
            0 <= i <= n,
            calendar_refs_spec(rv, base_url@) == calrefs_view(out@) + calendar_refs_spec(
                rv.skip(i as int),
                base_url@,
            ),
        decreases n - i,
    {
        proof {
            assert(rv[i as int] == el_view(root.children@[i as int]));
            assert(rv.skip(i as int)[0] == rv[i as int]);
            assert(rv.skip(i as int).drop_first() =~= rv.skip(i + 1));
        }
        let resp = &root.children[i];
        let ghost respv = el_view(*resp);
        let name = prop_text(resp, "displayname");
        let color = prop_text(resp, "calendar-color");
        let is_calendar = resourcetype_has(resp, "calendar");
        let is_subscription = resourcetype_has(resp, "subscribed");
        let supports = supports_components(resp);
        let href = child_text(resp, "href");
        if (is_calendar || is_subscription) && supports {
            match (href, name) {
                (Some(h), Some(nm)) => {
                    proof {
                        assert(resp_candidate(respv));
                        assert(resp_href(respv) == Some(h@));
                    }
                    match join_url(base_url, h.as_str()) {
                        Ok(u) => {
                            let privileges = privileges_of(resp);
                            let ghost pre = out@;
                            out.push(
                                CalendarRef {
                                    url: u,
                                    name: nm,
                                    color,
                                    privileges,
                                    is_subscription,
                                },
                            );
                            proof {
                                assert(calrefs_view(out@) =~= calrefs_view(pre).push(
                                    calref_view(out@.last()),
                                ));
                                assert(calrefs_view(out@) + calendar_refs_spec(
                                    rv.skip(i + 1),
                                    base_url@,
                                ) =~= calrefs_view(pre) + (seq![calref_view(out@.last())]
                                    + calendar_refs_spec(rv.skip(i + 1), base_url@)));
                                assert(calref_view(out@.last()) =~= (CalRefSpec {
                                    url: url_join(base_url@, resp_href(respv)->Some_0)->Some_0,
                                    name: resp_name(respv)->Some_0,
                                    color: resp_color(respv),
                                    privileges: resp_privileges(respv),
                                    is_subscription: resp_is_subscription(respv),
                                }));
                            }
                        },
                        Err(_) => {
                            proof {
                                assert(url_join(base_url@, resp_href(respv)->Some_0) is None);
                            }
                        },
                    }
                },
                _ => {
                    proof {
                        assert(!resp_candidate(respv));
                    }
                },
            }
        } else {
            proof {
                assert(!resp_candidate(respv));
            }
        }
        i += 1;
    }
    proof {
        assert(rv.skip(n as int) =~= Seq::<ElementSpec>::empty());
        assert(calendar_refs_spec(rv.skip(n as int), base_url@) == Seq::<CalRefSpec>::empty());
        assert(calrefs_view(out@) + Seq::<CalRefSpec>::empty() =~= calrefs_view(out@));
    }
    out
}


// ---------------------------------------------------------------------------
// Reading fetched components out of a query response.
// ---------------------------------------------------------------------------

#[verifier::ext_equal]
pub ghost struct CompRespSpec {
    pub url: Seq<char>,
    pub etag: Option<Seq<char>>,
    pub data: Seq<char>,
}

pub open spec fn compresp_view(c: ComponentResponse) -> CompRespSpec {
    CompRespSpec { url: c.url_spec(), etag: c.etag_spec(), data: c.data_spec() }
}

pub open spec fn compresps_view(s: Seq<ComponentResponse>) -> Seq<CompRespSpec> {
    Seq::new(s.len(), |i: int| compresp_view(s[i]))
}

pub broadcast proof fn lemma_compresps_view_len(s: Seq<ComponentResponse>)
    ensures
        (#[trigger] compresps_view(s)).len() == s.len(),
{
}

pub broadcast proof fn lemma_compresps_view_index(s: Seq<ComponentResponse>, i: int)
    requires
        0 <= i < s.len(),
    ensures
        #[trigger] compresps_view(s)[i] == compresp_view(s[i]),
{
}

pub open spec fn resp_etag(resp: ElementSpec) -> Option<Seq<char>> {
    opt_text(prop_el(resp, "getetag"@))
}

pub open spec fn resp_data(resp: ElementSpec) -> Option<Seq<char>> {
    opt_text(prop_el(resp, "calendar-data"@))
}

/// An entry yields a component only when all three of its reference, entity
/// tag and calendar data are present.
pub open spec fn comp_candidate(resp: ElementSpec) -> bool {
    &&& resp_href(resp) is Some
    &&& resp_etag(resp) is Some
    &&& resp_data(resp) is Some
}

/// The components a query response yields: one per entry carrying reference,
/// entity tag and data, whose reference resolves against the base address;
/// entries missing any of the three are skipped, never an error.
pub open spec fn component_responses_spec(rs: Seq<ElementSpec>, base: Seq<char>) -> Seq<
    CompRespSpec,
>
    decreases rs.len(),
{
    if rs.len() == 0 {
        Seq::empty()
    } else {
        let head: Seq<CompRespSpec> = if comp_candidate(rs[0]) {
            match url_join(base, resp_href(rs[0])->Some_0) {
                Some(u) => seq![
                    CompRespSpec {
                        url: u,
                        etag: resp_etag(rs[0]),
                        data: resp_data(rs[0])->Some_0,
                    },
                ],
                None => Seq::empty(),
            }
        } else {
            Seq::empty()
        };
        head + component_responses_spec(rs.drop_first(), base)
    }
}

/// Reads the fetched components out of a query response.
pub fn parse_component_responses(root: &Element, base_url: &str) -> (r: Vec<ComponentResponse>)
    ensures
        compresps_view(r@) == component_responses_spec(el_view(*root).children, base_url@),
{
    broadcast use group_xml_views, lemma_compresps_view_len, lemma_compresps_view_index;

    let ghost rv = el_view(*root).children;
    let mut out: Vec<ComponentResponse> = Vec::new();
    let n = root.children.len();
    let mut i: usize = 0;
    proof {
        assert(rv.skip(0) =~= rv);
        assert(compresps_view(out@) =~= Seq::<CompRespSpec>::empty());
        assert(component_responses_spec(rv, base_url@) == compresps_view(out@)
            + component_responses_spec(rv.skip(0), base_url@));
    }
    while i < n
        invariant
            n == root.children@.len(),
            rv == el_view(*root).children,
            0 <= i <= n,
            component_responses_spec(rv, base_url@) == compresps_view(out@)
                + component_responses_spec(rv.skip(i as int), base_url@),
        decreases n - i,
    {
        proof {
            assert(rv[i as int] == el_view(root.children@[i as int]));
            assert(rv.skip(i as int)[0] == rv[i as int]);
            assert(rv.skip(i as int).drop_first() =~= rv.skip(i + 1));
        }
        let resp = &root.children[i];
        let ghost respv = el_view(*resp);
        let href = child_text(resp, "href");
        let etag = prop_text(resp, "getetag");
        let data = prop_text(resp, "calendar-data");
        match (href, etag, data) {
            (Some(h), Some(tag), Some(d)) => {
                proof {
                    assert(comp_candidate(respv));
                    assert(resp_href(respv) == Some(h@));
                }
                match join_url(base_url, h.as_str()) {
                    Ok(u) => {
                        let ghost pre = out@;
                        out.push(ComponentResponse::new(u, Some(tag), d));
                        proof {
                            assert(compresps_view(out@) =~= compresps_view(pre).push(
                                compresp_view(out@.last()),
                            ));
                            assert(compresps_view(out@) + component_responses_spec(
                                rv.skip(i + 1),
                                base_url@,
                            ) =~= compresps_view(pre) + (seq![compresp_view(out@.last())]
                                + component_responses_spec(rv.skip(i + 1), base_url@)));
                            assert(compresp_view(out@.last()) =~= (CompRespSpec {
                                url: url_join(base_url@, resp_href(respv)->Some_0)->Some_0,
                                etag: resp_etag(respv),
                                data: resp_data(respv)->Some_0,
                            }));
                        }
                    },
                    Err(_) => {
                        proof {
                            assert(url_join(base_url@, resp_href(respv)->Some_0) is None);
                        }
                    },
                }
            },
            _ => {
                proof {
                    assert(!comp_candidate(respv));
                }
            },
        }
        i += 1;
    }
    proof {
        assert(rv.skip(n as int) =~= Seq::<ElementSpec>::empty());
        assert(component_responses_spec(rv.skip(n as int), base_url@) == Seq::<CompRespSpec>::empty());
        assert(compresps_view(out@) + Seq::<CompRespSpec>::empty() =~= compresps_view(out@));
    }
    out
}

} // verus!
