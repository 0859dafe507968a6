use vstd::prelude::*;

use crate::ical_model::AttrSpec;
use crate::ical_model::IcalSpec;
use crate::ical_model::ParseErrSpec;
use crate::ical_model::ParseState;
use crate::ical_model::PropSpec;
use crate::ical_model::ScanState;
use crate::ical_model::attrs_insert;
use crate::ical_model::attrs_of_pieces;
use crate::ical_model::attrs_serialized;
use crate::ical_model::attr_serialized;
use crate::ical_model::begin_line;
use crate::ical_model::begin_name;
use crate::ical_model::children_lines;
use crate::ical_model::end_line;
use crate::ical_model::end_name;
use crate::ical_model::err_message_spec;
use crate::ical_model::find_attr;
use crate::ical_model::find_char;
use crate::ical_model::find_child;
use crate::ical_model::find_prop;
use crate::ical_model::flush_buf;
use crate::ical_model::handle_prop;
use crate::ical_model::ical_lines;
use crate::ical_model::ical_serialized;
use crate::ical_model::parse_init;
use crate::ical_model::parse_outcome;
use crate::ical_model::parse_prop_spec;
use crate::ical_model::prop_serialized;
use crate::ical_model::push_prop_top;
use crate::ical_model::run_lines;
use crate::ical_model::scan_init;
use crate::ical_model::scan_run;
use crate::ical_model::scan_step;
use crate::ical_model::split_lines_rec;
use crate::ical_model::split_lines_spec;
use crate::ical_model::split_semi;
use crate::ical_model::split_semi_rec;
use crate::ical_model::step_line;
use crate::ical_model::strip_cr;
use crate::ical_model::unlines;
use crate::strutil::contains_char;
use crate::views::attrs_view;
use crate::views::group_views;
use crate::views::ical_view;
use crate::views::props_view;
use crate::views::stack_view;
use crate::views::strs_view;
use crate::strutil::eq_str;
use crate::strutil::is_blank;
use crate::strutil::push_char;
use crate::strutil::trim;
use crate::strutil::trim_spec;

verus! {

/// One `key=value` parameter of a property.
#[derive(Debug, Default)]
pub struct Attr {
    pub name: String,
    pub value: String,
}

impl Clone for Attr {
    fn clone(&self) -> (r: Self)
        ensures
            r@ == self@,
    {
        broadcast use group_views;

        Attr { name: self.name.clone(), value: self.value.clone() }
    }
}

impl View for Attr {
    type V = AttrSpec;

    open spec fn view(&self) -> AttrSpec {
        AttrSpec { name: self.name@, value: self.value@ }
    }
}

/// A property of a container: a name, a value, and parameters attached via
/// `;key=value` segments before the value separator. The parameter list is a
/// map in order of first insertion: keys are unique, and inserting an
/// existing key replaces its value in place.
#[derive(Debug, Default)]
pub struct Property {
    pub name: String,
    pub value: String,
    pub attributes: Vec<Attr>,
}

impl Clone for Property {
    fn clone(&self) -> (r: Self)
        ensures
            r@ == self@,
    {
        broadcast use group_views;

        let mut attributes: Vec<Attr> = Vec::new();
        let n = self.attributes.len();
        let mut i: usize = 0;
        while i < n
            invariant
                n == self.attributes@.len(),
                0 <= i <= n,
                attributes@.len() == i,
                forall|j: int|
                    0 <= j < i ==> (#[trigger] attributes@[j])@ == self.attributes@[j]@,
            decreases n - i,
        {
            attributes.push(self.attributes[i].clone());
            i += 1;
        }
        let r = Property {
            name: self.name.clone(),
            value: self.value.clone(),
            attributes,
        };
        proof {
            assert(r@.attrs =~= self@.attrs);
            assert(r@ =~= self@);
        }
        r
    }
}



impl View for Property {
    type V = PropSpec;

    open spec fn view(&self) -> PropSpec {
        PropSpec { name: self.name@, value: self.value@, attrs: attrs_view(self.attributes@) }
    }
}

/// The value bound to a key, looked up at the first position of the key.
pub open spec fn attr_lookup_spec(attrs: Seq<AttrSpec>, key: Seq<char>) -> Option<Seq<char>> {
    let i = find_attr(attrs, key);
    if i < attrs.len() {
        Some(attrs[i].value)
    } else {
        None
    }
}

/// Two attribute lists bind the same keys to the same values. Order does not
/// matter: the wire format's parameters form a map.
pub open spec fn attrs_equiv(x: Seq<AttrSpec>, y: Seq<AttrSpec>) -> bool {
    &&& x.len() == y.len()
    &&& forall|i: int|
        0 <= i < x.len() ==> attr_lookup_spec(y, #[trigger] x[i].name) == Some(x[i].value)
    &&& forall|i: int|
        0 <= i < y.len() ==> attr_lookup_spec(x, #[trigger] y[i].name) == Some(y[i].value)
}

/// Property equality: same name, same value, same parameter map.
pub open spec fn prop_equiv(a: PropSpec, b: PropSpec) -> bool {
    a.name == b.name && a.value == b.value && attrs_equiv(a.attrs, b.attrs)
}

/// The value bound to the given key, if any.
fn attr_lookup<'a>(attrs: &'a Vec<Attr>, key: &str) -> (r: Option<&'a String>)
    ensures
        match r {
            Some(v) => attr_lookup_spec(attrs_view(attrs@), key@) == Some(v@),
            None => attr_lookup_spec(attrs_view(attrs@), key@) is None,
        },
{
    let n = attrs.len();
    let mut i: usize = 0;
    while i < n
        invariant
            n == attrs@.len(),
            0 <= i <= n,
            forall|j: int| 0 <= j < i ==> attrs_view(attrs@)[j].name != key@,
        decreases n - i,
    {
        if eq_str(attrs[i].name.as_str(), key) {
            proof {
                lemma_find_attr(attrs_view(attrs@), key@);
                assert(attrs_view(attrs@)[i as int].name == key@);
                assert(find_attr(attrs_view(attrs@), key@) == i);
            }
            return Some(&attrs[i].value);
        }
        i += 1;
    }
    proof {
        lemma_find_attr(attrs_view(attrs@), key@);
    }
    None
}

fn attrs_equiv_exec(x: &Vec<Attr>, y: &Vec<Attr>) -> (r: bool)
    ensures
        r == attrs_equiv(attrs_view(x@), attrs_view(y@)),
{
    broadcast use group_views;

    let ghost xv = attrs_view(x@);
    let ghost yv = attrs_view(y@);
    if x.len() != y.len() {
        return false;
    }
    let n = x.len();
    let mut i: usize = 0;
    while i < n
        invariant
            n == x@.len(),
            xv == attrs_view(x@),
            yv == attrs_view(y@),
            0 <= i <= n,
            forall|j: int|
                0 <= j < i ==> attr_lookup_spec(yv, #[trigger] xv[j].name) == Some(xv[j].value),
        decreases n - i,
    {
        let ok = match attr_lookup(y, x[i].name.as_str()) {
            Some(v) => eq_str(v.as_str(), x[i].value.as_str()),
            None => false,
        };
        if !ok {
            proof {
                assert(attr_lookup_spec(yv, xv[i as int].name) != Some(xv[i as int].value));
            }
            return false;
        }
        i += 1;
    }
    let mut k: usize = 0;
    while k < n
        invariant
            n == x@.len(),
            n == y@.len(),
            xv == attrs_view(x@),
            yv == attrs_view(y@),
            0 <= k <= n,
            forall|j: int|
                0 <= j < xv.len() ==> attr_lookup_spec(yv, #[trigger] xv[j].name) == Some(
                    xv[j].value,
                ),
            forall|j: int|
                0 <= j < k ==> attr_lookup_spec(xv, #[trigger] yv[j].name) == Some(yv[j].value),
        decreases n - k,
    {
        let ok = match attr_lookup(x, y[k].name.as_str()) {
            Some(v) => eq_str(v.as_str(), y[k].value.as_str()),
            None => false,
        };
        if !ok {
            proof {
                assert(attr_lookup_spec(xv, yv[k as int].name) != Some(yv[k as int].value));
            }
            return false;
        }
        k += 1;
    }
    true
}

impl PartialEq for Property {
    fn eq(&self, other: &Self) -> (r: bool) {
        broadcast use group_views;

        eq_str(self.name.as_str(), other.name.as_str()) && eq_str(
            self.value.as_str(),
            other.value.as_str(),
        ) && attrs_equiv_exec(&self.attributes, &other.attributes)
    }
}

impl vstd::std_specs::cmp::PartialEqSpecImpl for Property {
    open spec fn obeys_eq_spec() -> bool {
        true
    }

    open spec fn eq_spec(&self, other: &Self) -> bool {
        prop_equiv(self@, other@)
    }
}

/// Failures of the text codec.
#[derive(Debug, Clone, PartialEq, Eq)]
pub struct Error {
    pub message: String,
}

impl Error {
    pub fn new(message: String) -> (r: Self)
        ensures
            r.message@ == message@,
    {
        Self { message }
    }
}

/// The keyword literals equal their model spellings.
pub proof fn lemma_keywords()
    ensures
        "BEGIN"@ == begin_name(),
        "END"@ == end_name(),
        "BEGIN:"@ == begin_name() + seq![':'],
        "END:"@ == end_name() + seq![':'],
{
    reveal_strlit("BEGIN");
    reveal_strlit("END");
    reveal_strlit("BEGIN:");
    reveal_strlit("END:");
    assert("BEGIN"@ =~= begin_name());
    assert("END"@ =~= end_name());
    assert("BEGIN:"@ =~= begin_name() + seq![':']);
    assert("END:"@ =~= end_name() + seq![':']);
}

/// Where `find_attr` points: the first position with the key, or the length.
pub proof fn lemma_find_attr(attrs: Seq<AttrSpec>, key: Seq<char>)
    ensures
        0 <= find_attr(attrs, key) <= attrs.len(),
        find_attr(attrs, key) < attrs.len() ==> attrs[find_attr(attrs, key)].name == key,
        forall|j: int| 0 <= j < find_attr(attrs, key) ==> attrs[j].name != key,
    decreases attrs.len(),
{
    if attrs.len() > 0 && attrs[0].name != key {
        lemma_find_attr(attrs.drop_first(), key);
        assert forall|j: int| 0 <= j < find_attr(attrs, key) implies attrs[j].name != key by {
            if j > 0 {
                assert(attrs.drop_first()[j - 1] == attrs[j]);
                assert(attrs.drop_first()[j - 1].name != key);
            }
        }
    }
}

/// Where `find_prop` points: the first position with the name, or the length.
pub proof fn lemma_find_prop(ps: Seq<PropSpec>, name: Seq<char>)
    ensures
        0 <= find_prop(ps, name) <= ps.len(),
        find_prop(ps, name) < ps.len() ==> ps[find_prop(ps, name)].name == name,
        forall|j: int| 0 <= j < find_prop(ps, name) ==> ps[j].name != name,
    decreases ps.len(),
{
    if ps.len() > 0 && ps[0].name != name {
        lemma_find_prop(ps.drop_first(), name);
        assert forall|j: int| 0 <= j < find_prop(ps, name) implies ps[j].name != name by {
            if j > 0 {
                assert(ps.drop_first()[j - 1] == ps[j]);
                assert(ps.drop_first()[j - 1].name != name);
            }
        }
    }
}

/// Finds the first property with the given name.
pub fn props_find(props: &Vec<Property>, name: &str) -> (r: Option<usize>)
    ensures
        ({
            let i = find_prop(props_view(props@), name@);
            match r {
                Some(j) => j == i && i < props@.len(),
                None => i == props@.len(),
            }
        }),
{
    broadcast use group_views;

    let n = props.len();
    let mut i: usize = 0;
    while i < n
        invariant
            n == props@.len(),
            0 <= i <= n,
            forall|j: int| 0 <= j < i ==> props_view(props@)[j].name != name@,
        decreases n - i,
    {
        if eq_str(props[i].name.as_str(), name) {
            proof {
                lemma_find_prop(props_view(props@), name@);
                assert(props_view(props@)[i as int].name == name@);
                assert(find_prop(props_view(props@), name@) == i);
            }
            return Some(i);
        }
        proof {
            assert(props_view(props@)[i as int] == props@[i as int]@);
        }
        i += 1;
    }
    proof {
        lemma_find_prop(props_view(props@), name@);
        let f = find_prop(props_view(props@), name@);
        if f < props@.len() {
            assert(props_view(props@)[f].name == name@);
        }
    }
    None
}

/// Finds the first child container with the given name.
pub fn children_find(children: &Vec<Ical>, name: &str) -> (r: Option<usize>)
    ensures
        ({
            let i = find_child(stack_view(children@), name@);
            match r {
                Some(j) => j == i && i < children@.len(),
                None => i == children@.len(),
            }
        }),
{
    broadcast use group_views;

    let n = children.len();
    let mut i: usize = 0;
    while i < n
        invariant
            n == children@.len(),
            0 <= i <= n,
            forall|j: int| 0 <= j < i ==> stack_view(children@)[j].name != name@,
        decreases n - i,
    {
        if eq_str(children[i].name.as_str(), name) {
            proof {
                lemma_find_child(stack_view(children@), name@);
                assert(stack_view(children@)[i as int].name == name@);
                assert(find_child(stack_view(children@), name@) == i);
            }
            return Some(i);
        }
        proof {
            assert(stack_view(children@)[i as int] == ical_view(children@[i as int]));
        }
        i += 1;
    }
    proof {
        lemma_find_child(stack_view(children@), name@);
        let f = find_child(stack_view(children@), name@);
        if f < children@.len() {
            assert(stack_view(children@)[f].name == name@);
        }
    }
    None
}

/// Where `find_char` points: the first position with the character, or the
/// length.
pub proof fn lemma_find_char(s: Seq<char>, c: char)
    ensures
        0 <= find_char(s, c) <= s.len(),
        find_char(s, c) < s.len() ==> s[find_char(s, c)] == c,
        forall|j: int| 0 <= j < find_char(s, c) ==> s[j] != c,
    decreases s.len(),
{
    if s.len() > 0 && s[0] != c {
        lemma_find_char(s.drop_first(), c);
        assert forall|j: int| 0 <= j < find_char(s, c) implies s[j] != c by {
            if j > 0 {
                assert(s.drop_first()[j - 1] == s[j]);
                assert(s.drop_first()[j - 1] != c);
            }
        }
    }
}

/// Inserts one attribute with map semantics: replace the value of an
/// existing key in place, or append a new key.
pub(crate) fn attrs_insert_exec(attrs: &mut Vec<Attr>, name: String, value: String)
    ensures
        attrs_view(final(attrs)@) == attrs_insert(
            attrs_view(old(attrs)@),
            AttrSpec { name: name@, value: value@ },
        ),
{
    broadcast use group_views;

    let n = attrs.len();
    let mut i: usize = 0;
    while i < n
        invariant
            n == attrs@.len(),
            0 <= i <= n,
            attrs@ == old(attrs)@,
            forall|j: int| 0 <= j < i ==> attrs_view(attrs@)[j].name != name@,
        decreases n - i,
    {
        if eq_str(attrs[i].name.as_str(), name.as_str()) {
            proof {
                lemma_find_attr(attrs_view(attrs@), name@);
                assert(attrs_view(attrs@)[i as int].name == name@);
                assert(find_attr(attrs_view(attrs@), name@) == i);
            }
            let ghost pre = attrs@;
            attrs.remove(i);
            attrs.insert(i, Attr { name, value });
            proof {
                assert(attrs_view(attrs@) =~= attrs_view(pre).update(
                    i as int,
                    AttrSpec { name: name@, value: value@ },
                ));
            }
            return ;
        }
        i += 1;
    }
    proof {
        lemma_find_attr(attrs_view(attrs@), name@);
        assert(find_attr(attrs_view(attrs@), name@) == attrs@.len());
    }
    let ghost pre = attrs@;
    attrs.push(Attr { name, value });
    proof {
        assert(attrs_view(attrs@) =~= attrs_view(pre).push(
            AttrSpec { name: name@, value: value@ },
        ));
    }
}



/// Scanning a sequence extended by one character takes one more step.
pub proof fn lemma_scan_snoc(st: ScanState, cs: Seq<char>, c: char)
    ensures
        scan_run(st, cs.push(c)) == scan_step(scan_run(st, cs), c),
    decreases cs.len(),
{
    if cs.len() == 0 {
        assert(cs.push(c)[0] == c);
        assert(cs.push(c).drop_first() =~= Seq::<char>::empty());
        assert(scan_run(st, cs.push(c)) == scan_run(scan_step(st, c), cs.push(c).drop_first()));
        assert(scan_run(scan_step(st, c), Seq::<char>::empty()) == scan_step(st, c));
    } else {
        assert(cs.push(c)[0] == cs[0]);
        assert(cs.push(c).drop_first() =~= cs.drop_first().push(c));
        assert(scan_run(st, cs.push(c)) == scan_run(scan_step(st, cs[0]), cs.drop_first().push(c)));
        lemma_scan_snoc(scan_step(st, cs[0]), cs.drop_first(), c);
    }
}

/// Attribute serialization distributes over concatenation.
pub proof fn lemma_attrs_serialized_concat(a: Seq<AttrSpec>, b: Seq<AttrSpec>)
    ensures
        attrs_serialized(a + b) == attrs_serialized(a) + attrs_serialized(b),
    decreases a.len(),
{
    if a.len() == 0 {
        assert(a + b =~= b);
        assert(attrs_serialized(a) + attrs_serialized(b) =~= attrs_serialized(b));
    } else {
        assert((a + b)[0] == a[0]);
        assert((a + b).drop_first() =~= a.drop_first() + b);
        lemma_attrs_serialized_concat(a.drop_first(), b);
        assert(attrs_serialized(a + b) =~= attrs_serialized(a) + attrs_serialized(b));
    }
}

/// The error the codec reports for a logical line with no colon outside
/// quotes.
fn prop_parse_error(line: &str) -> (e: Error)
    ensures
        e.message@ == err_message_spec(ParseErrSpec::BadProp(line@)),
{
    broadcast use group_views;

    let mut m = "Invalid property: ".to_owned();
    m.append(line);
    Error { message: m }
}

/// Index of the first occurrence of the character, or the length if absent.
fn find_char_exec(s: &str, c: char) -> (r: usize)
    ensures
        r == find_char(s@, c),
{
    broadcast use group_views;

    proof {
        lemma_find_char(s@, c);
    }
    let n = s.unicode_len();
    let mut i: usize = 0;
    while i < n
        invariant
            n == s@.len(),
            0 <= i <= n,
            forall|j: int| 0 <= j < i ==> s@[j] != c,
        decreases n - i,
    {
        if s.get_char(i) == c {
            proof {
                lemma_find_char(s@, c);
            }
            return i;
        }
        i += 1;
    }
    proof {
        lemma_find_char(s@, c);
    }
    n
}

/// Folding a sequence of borrowed key/value pairs into an attribute list.
pub open spec fn attrs_insert_pairs(acc: Seq<AttrSpec>, pairs: Seq<(&str, &str)>) -> Seq<AttrSpec>
    decreases pairs.len(),
{
    if pairs.len() == 0 {
        acc
    } else {
        attrs_insert_pairs(
            attrs_insert(acc, AttrSpec { name: pairs[0].0@, value: pairs[0].1@ }),
            pairs.drop_first(),
        )
    }
}

proof fn lemma_attrs_insert_pairs_step(acc: Seq<AttrSpec>, pairs: Seq<(&str, &str)>, i: int)
    requires
        0 <= i < pairs.len(),
    ensures
        attrs_insert_pairs(acc, pairs.skip(i)) == attrs_insert_pairs(
            attrs_insert(acc, AttrSpec { name: pairs[i].0@, value: pairs[i].1@ }),
            pairs.skip(i + 1),
        ),
{
    assert(pairs.skip(i).len() > 0);
    assert(pairs.skip(i)[0] == pairs[i]);
    assert(pairs.skip(i).drop_first() =~= pairs.skip(i + 1));
}

impl Property {
    /// Creates a new property without parameters.
    pub fn new(name: &str, value: &str) -> (r: Self)
        ensures
            r@ == (PropSpec { name: name@, value: value@, attrs: Seq::empty() }),
    {
        broadcast use group_views;

        let r = Self { name: name.to_owned(), value: value.to_owned(), attributes: Vec::new() };
        proof {
            assert(attrs_view(r.attributes@) =~= Seq::<AttrSpec>::empty());
        }
        r
    }

    /// Creates a new property with parameters, inserted in order with map
    /// semantics.
    pub fn new_with_attributes(name: &str, value: &str, attribs: Vec<(&str, &str)>) -> (r: Self)
        ensures
            r@ == (PropSpec {
                name: name@,
                value: value@,
                attrs: attrs_insert_pairs(Seq::empty(), attribs@),
            }),
    {
        broadcast use group_views;

        let mut attributes: Vec<Attr> = Vec::new();
        proof {
            assert(attrs_view(attributes@) =~= Seq::<AttrSpec>::empty());
            assert(attribs@.skip(0) =~= attribs@);
        }
        let n = attribs.len();
        let mut i: usize = 0;
        while i < n
            invariant
                n == attribs@.len(),
                0 <= i <= n,
                attrs_insert_pairs(Seq::empty(), attribs@) == attrs_insert_pairs(
                    attrs_view(attributes@),
                    attribs@.skip(i as int),
                ),
            decreases n - i,
        {
            proof {
                lemma_attrs_insert_pairs_step(attrs_view(attributes@), attribs@, i as int);
            }
            let (k, v) = attribs[i];
            attrs_insert_exec(&mut attributes, k.to_owned(), v.to_owned());
            i += 1;
        }
        proof {
            assert(attribs@.skip(n as int) =~= Seq::<(&str, &str)>::empty());
        }
        Self { name: name.to_owned(), value: value.to_owned(), attributes }
    }

    /// Parses one logical line into a property: the value starts after the
    /// first colon that is not enclosed in double quotes; the part before it
    /// is split on ';' into the name and the `key=value` parameters.
    pub fn parse(input: &str) -> (r: Result<Self, Error>)
        ensures
            match (r, parse_prop_spec(input@)) {
                (Ok(p), Some(ps)) => p@ == ps,
                (Err(e), None) => e.message@ == err_message_spec(ParseErrSpec::BadProp(input@)),
                _ => false,
            },
    {
        let n = input.unicode_len();
        let mut name = String::new();
        let mut value = String::new();
        let mut read_value = false;
        let mut ignore = false;
        proof {
            assert(input@.take(0) =~= Seq::<char>::empty());
        }
        let mut i: usize = 0;
        while i < n
            invariant
                n == input@.len(),
                0 <= i <= n,
                scan_run(scan_init(), input@.take(i as int)) == (ScanState {
                    name: name@,
                    value: value@,
                    read_value,
                    ignore,
                }),
            decreases n - i,
        {
            proof {
                lemma_scan_snoc(scan_init(), input@.take(i as int), input@[i as int]);
                assert(input@.take(i + 1) =~= input@.take(i as int).push(input@[i as int]));
            }
            let c = input.get_char(i);
            if c == '"' {
                ignore = !ignore;
                if read_value {
                    push_char(&mut value, c);
                } else {
                    push_char(&mut name, c);
                }
            } else if c == ':' && !ignore && !read_value {
                read_value = true;
            } else {
                if read_value {
                    push_char(&mut value, c);
                } else {
                    push_char(&mut name, c);
                }
            }
            i += 1;
        }
        proof {
            assert(input@.take(n as int) =~= input@);
        }
        if !read_value {
            return Err(prop_parse_error(input));
        }
        // split the name segment on ';'
        let ghost scname = name@;
        let mut pieces: Vec<String> = Vec::new();
        let mut cur = String::new();
        proof {
            assert(strs_view(pieces@) =~= Seq::<Seq<char>>::empty());
            assert(scname.skip(0) =~= scname);
            assert(split_semi(scname) == strs_view(pieces@) + split_semi_rec(scname.skip(0), cur@));
        }
        let m = name.as_str().unicode_len();
        let mut j: usize = 0;
        while j < m
            invariant
                m == scname.len(),
                name@ == scname,
                0 <= j <= m,
                split_semi(scname) == strs_view(pieces@) + split_semi_rec(
                    scname.skip(j as int),
                    cur@,
                ),
            decreases m - j,
        {
            proof {
                assert(scname.skip(j as int)[0] == scname[j as int]);
                assert(scname.skip(j as int).drop_first() =~= scname.skip(j + 1));
            }
            let c = name.as_str().get_char(j);
            if c == ';' {
                let ghost pre = pieces@;
                let ghost curv = cur@;
                pieces.push(cur);
                cur = String::new();
                proof {
                    assert(strs_view(pieces@) =~= strs_view(pre).push(curv));
                    assert(strs_view(pieces@) + split_semi_rec(
                        scname.skip(j + 1),
                        Seq::<char>::empty(),
                    ) =~= strs_view(pre) + (seq![curv] + split_semi_rec(
                        scname.skip(j + 1),
                        Seq::<char>::empty(),
                    )));
                }
            } else {
                push_char(&mut cur, c);
            }
            j += 1;
        }
        proof {
            assert(scname.skip(m as int) =~= Seq::<char>::empty());
        }
        let ghost pre = pieces@;
        let ghost curv = cur@;
        pieces.push(cur);
        proof {
            assert(strs_view(pieces@) =~= strs_view(pre).push(curv));
            assert(strs_view(pieces@) =~= split_semi(scname));
        }
        let pname = trim(pieces[0].as_str()).to_owned();
        let mut attributes: Vec<Attr> = Vec::new();
        let ghost pv = strs_view(pieces@);
        proof {
            assert(attrs_view(attributes@) =~= Seq::<AttrSpec>::empty());
            assert(pv.skip(1) =~= pv.drop_first());
        }
        let np = pieces.len();
        let mut k: usize = 1;
        while k < np
            invariant
                np == pieces@.len(),
                pv == strs_view(pieces@),
                np >= 1,
                1 <= k <= np,
                attrs_of_pieces(pv.drop_first(), Seq::empty()) == attrs_of_pieces(
                    pv.skip(k as int),
                    attrs_view(attributes@),
                ),
            decreases np - k,
        {
            proof {
                assert(pv.skip(k as int)[0] == pv[k as int]);
                assert(pv.skip(k as int).drop_first() =~= pv.skip(k + 1));
                lemma_find_char(pv[k as int], '=');
            }
            let piece = &pieces[k];
            let plen = piece.as_str().unicode_len();
            let eq_pos = find_char_exec(piece.as_str(), '=');
            if eq_pos < plen {
                let ak = piece.as_str().substring_char(0, eq_pos).to_owned();
                let av = piece.as_str().substring_char(eq_pos + 1, plen).to_owned();
                attrs_insert_exec(&mut attributes, ak, av);
            }
            k += 1;
        }
        proof {
            assert(pv.skip(np as int) =~= Seq::<Seq<char>>::empty());
        }
        Ok(Self { name: pname, value, attributes })
    }

    /// The wire form of this property: `name[;key=value...]:value`.
    pub fn serialize(&self) -> (r: String)
        ensures
            r@ == prop_serialized(self@),
    {
        broadcast use group_views;

        let mut out = self.name.clone();
        let ghost av = attrs_view(self.attributes@);
        proof {
            assert(av.take(0) =~= Seq::<AttrSpec>::empty());
        }
        let n = self.attributes.len();
        let mut i: usize = 0;
        while i < n
            invariant
                n == self.attributes@.len(),
                av == attrs_view(self.attributes@),
                0 <= i <= n,
                out@ == self.name@ + attrs_serialized(av.take(i as int)),
            decreases n - i,
        {
            proof {
                lemma_attrs_serialized_concat(av.take(i as int), seq![av[i as int]]);
                assert(av.take(i + 1) =~= av.take(i as int) + seq![av[i as int]]);
                assert(attrs_serialized(seq![av[i as int]]) =~= attr_serialized(av[i as int]))
                    by {
                    assert(seq![av[i as int]][0] == av[i as int]);
                    assert(seq![av[i as int]].drop_first() =~= Seq::<AttrSpec>::empty());
                    assert(attrs_serialized(seq![av[i as int]]) == attr_serialized(av[i as int])
                        + attrs_serialized(Seq::<AttrSpec>::empty()));
                    assert(attrs_serialized(Seq::<AttrSpec>::empty()) == Seq::<char>::empty());
                }
            }
            push_char(&mut out, ';');
            out.append(self.attributes[i].name.as_str());
            push_char(&mut out, '=');
            out.append(self.attributes[i].value.as_str());
            proof {
                assert(out@ =~= self.name@ + attrs_serialized(av.take(i + 1)));
            }
            i += 1;
        }
        proof {
            assert(av.take(n as int) =~= av);
        }
        push_char(&mut out, ':');
        out.append(self.value.as_str());
        proof {
            assert(out@ =~= prop_serialized(self@));
        }
        out
    }

    /// Checks whether this property has the given name and if so, returns its
    /// value.
    pub fn is(&self, name: &str) -> (r: Option<&String>)
        ensures
            match r {
                Some(v) => self@.name == name@ && v@ == self@.value,
                None => self@.name != name@,
            },
    {
        if eq_str(self.name.as_str(), name) {
            Some(&self.value)
        } else {
            None
        }
    }
}

// ---------------------------------------------------------------------------
// Containers.
// ---------------------------------------------------------------------------

/// A container of the wire format: one `BEGIN:<name> ... END:<name>` block,
/// holding properties and child containers in order.
#[derive(Debug, Default)]
pub struct Ical {
    pub name: String,
    pub properties: Vec<Property>,
    pub children: Vec<Ical>,
}

/// Container equality: same name, properties equal in order, children equal
/// in order.
pub open spec fn ical_equiv(a: IcalSpec, b: IcalSpec) -> bool
    decreases a,
{
    &&& a.name == b.name
    &&& a.props.len() == b.props.len()
    &&& forall|i: int| 0 <= i < a.props.len() ==> prop_equiv(a.props[i], #[trigger] b.props[i])
    &&& children_equiv(a.children, b.children)
}

pub open spec fn children_equiv(x: Seq<IcalSpec>, y: Seq<IcalSpec>) -> bool
    decreases x,
{
    if x.len() != y.len() {
        false
    } else if x.len() == 0 {
        true
    } else {
        ical_equiv(x[0], y[0]) && children_equiv(x.drop_first(), y.drop_first())
    }
}





pub proof fn lemma_ical_view_children(n: Ical)
    ensures
        ical_view(n).children == stack_view(n.children@),
{
    assert(ical_view(n).children =~= stack_view(n.children@));
}

fn prop_eq(a: &Property, b: &Property) -> (r: bool)
    ensures
        r == prop_equiv(a@, b@),
{
    broadcast use group_views;

    eq_str(a.name.as_str(), b.name.as_str()) && eq_str(a.value.as_str(), b.value.as_str())
        && attrs_equiv_exec(&a.attributes, &b.attributes)
}

fn ical_eq(a: &Ical, b: &Ical) -> (r: bool)
    ensures
        r == ical_equiv(ical_view(*a), ical_view(*b)),
    decreases *a,
{
    broadcast use group_views;

    let ghost av = ical_view(*a);
    let ghost bv = ical_view(*b);
    if !eq_str(a.name.as_str(), b.name.as_str()) {
        return false;
    }
    if a.properties.len() != b.properties.len() {
        return false;
    }
    let np = a.properties.len();
    let mut i: usize = 0;
    while i < np
        invariant
            np == a.properties@.len(),
            np == b.properties@.len(),
            av == ical_view(*a),
            bv == ical_view(*b),
            0 <= i <= np,
            forall|j: int| 0 <= j < i ==> prop_equiv(av.props[j], #[trigger] bv.props[j]),
        decreases np - i,
    {
        if !prop_eq(&a.properties[i], &b.properties[i]) {
            proof {
                assert(!prop_equiv(av.props[i as int], bv.props[i as int]));
            }
            return false;
        }
        i += 1;
    }
    if a.children.len() != b.children.len() {
        return false;
    }
    proof {
        assert(av.children.skip(0) =~= av.children);
        assert(bv.children.skip(0) =~= bv.children);
    }
    let nc = a.children.len();
    let mut k: usize = 0;
    while k < nc
        invariant
            nc == a.children@.len(),
            nc == b.children@.len(),
            av == ical_view(*a),
            bv == ical_view(*b),
            0 <= k <= nc,
            children_equiv(av.children, bv.children) == children_equiv(
                av.children.skip(k as int),
                bv.children.skip(k as int),
            ),
        decreases nc - k,
    {
        proof {
            assert(av.children.skip(k as int)[0] == av.children[k as int]);
            assert(bv.children.skip(k as int)[0] == bv.children[k as int]);
            assert(av.children.skip(k as int).drop_first() =~= av.children.skip(k + 1));
            assert(bv.children.skip(k as int).drop_first() =~= bv.children.skip(k + 1));
            assert(av.children[k as int] == ical_view(a.children@[k as int]));
            assert(bv.children[k as int] == ical_view(b.children@[k as int]));
        }
        if !ical_eq(&a.children[k], &b.children[k]) {
            proof {
                assert(!children_equiv(av.children.skip(k as int), bv.children.skip(k as int)));
            }
            return false;
        }
        k += 1;
    }
    proof {
        assert(av.children.skip(nc as int) =~= Seq::<IcalSpec>::empty());
        assert(bv.children.skip(nc as int) =~= Seq::<IcalSpec>::empty());
        assert(children_equiv(av.children, bv.children));
    }
    true
}

fn ical_clone_rec(a: &Ical) -> (r: Ical)
    ensures
        ical_view(r) == ical_view(*a),
    decreases *a,
{
    broadcast use group_views;

    let mut properties: Vec<Property> = Vec::new();
    let np = a.properties.len();
    let mut i: usize = 0;
    while i < np
        invariant
            np == a.properties@.len(),
            0 <= i <= np,
            properties@.len() == i,
            forall|j: int| 0 <= j < i ==> (#[trigger] properties@[j])@ == a.properties@[j]@,
        decreases np - i,
    {
        properties.push(a.properties[i].clone());
        i += 1;
    }
    let mut children: Vec<Ical> = Vec::new();
    let nc = a.children.len();
    let mut k: usize = 0;
    while k < nc
        invariant
            nc == a.children@.len(),
            0 <= k <= nc,
            children@.len() == k,
            forall|j: int|
                0 <= j < k ==> ical_view(#[trigger] children@[j]) == ical_view(a.children@[j]),
        decreases nc - k,
    {
        children.push(ical_clone_rec(&a.children[k]));
        k += 1;
    }
    let r = Ical { name: a.name.clone(), properties, children };
    proof {
        assert(ical_view(r).props =~= ical_view(*a).props);
        assert(ical_view(r).children =~= ical_view(*a).children);
        assert(ical_view(r) =~= ical_view(*a));
    }
    r
}

impl Clone for Ical {
    /// A clone has the same model value.
    fn clone(&self) -> (r: Self)
        ensures
            ical_view(r) == ical_view(*self),
    {
        broadcast use group_views;

        ical_clone_rec(self)
    }
}

impl PartialEq for Ical {
    fn eq(&self, other: &Self) -> (r: bool) {
        broadcast use group_views;

        ical_eq(self, other)
    }
}

impl vstd::std_specs::cmp::PartialEqSpecImpl for Ical {
    open spec fn obeys_eq_spec() -> bool {
        true
    }

    open spec fn eq_spec(&self, other: &Self) -> bool {
        ical_equiv(ical_view(*self), ical_view(*other))
    }
}

/// Where `find_child` points: the first child with the name, or the length.
pub proof fn lemma_find_child(cs: Seq<IcalSpec>, name: Seq<char>)
    ensures
        0 <= find_child(cs, name) <= cs.len(),
        find_child(cs, name) < cs.len() ==> cs[find_child(cs, name)].name == name,
        forall|j: int| 0 <= j < find_child(cs, name) ==> cs[j].name != name,
    decreases cs.len(),
{
    if cs.len() > 0 && cs[0].name != name {
        lemma_find_child(cs.drop_first(), name);
        assert forall|j: int| 0 <= j < find_child(cs, name) implies cs[j].name != name by {
            if j > 0 {
                assert(cs.drop_first()[j - 1] == cs[j]);
                assert(cs.drop_first()[j - 1].name != name);
            }
        }
    }
}

/// Running the parser over one more line takes one more step.
pub proof fn lemma_run_snoc(st: ParseState, ls: Seq<Seq<char>>, l: Seq<char>)
    ensures
        run_lines(st, ls.push(l)) == step_line(run_lines(st, ls), l),
    decreases ls.len(),
{
    if ls.len() == 0 {
        assert(ls.push(l)[0] == l);
        assert(ls.push(l).drop_first() =~= Seq::<Seq<char>>::empty());
        assert(run_lines(st, ls.push(l)) == run_lines(step_line(st, l), ls.push(l).drop_first()));
        assert(run_lines(step_line(st, l), Seq::<Seq<char>>::empty()) == step_line(st, l));
    } else {
        assert(ls.push(l)[0] == ls[0]);
        assert(ls.push(l).drop_first() =~= ls.drop_first().push(l));
        assert(run_lines(st, ls.push(l)) == run_lines(
            step_line(st, ls[0]),
            ls.drop_first().push(l),
        ));
        lemma_run_snoc(step_line(st, ls[0]), ls.drop_first(), l);
    }
}

/// Joining lines distributes over concatenation.
pub proof fn lemma_unlines_concat(a: Seq<Seq<char>>, b: Seq<Seq<char>>)
    ensures
        unlines(a + b) == unlines(a) + unlines(b),
    decreases a.len(),
{
    if a.len() == 0 {
        assert(a + b =~= b);
        assert(unlines(a) + unlines(b) =~= unlines(b));
    } else {
        assert((a + b)[0] == a[0]);
        assert((a + b).drop_first() =~= a.drop_first() + b);
        lemma_unlines_concat(a.drop_first(), b);
        assert(unlines(a + b) =~= unlines(a) + unlines(b));
    }
}

/// The lines of a list of children distribute over concatenation.
pub proof fn lemma_children_lines_concat(a: Seq<IcalSpec>, b: Seq<IcalSpec>)
    ensures
        children_lines(a + b) == children_lines(a) + children_lines(b),
    decreases a.len(),
{
    if a.len() == 0 {
        assert(a + b =~= b);
        assert(children_lines(a) + children_lines(b) =~= children_lines(b));
    } else {
        assert((a + b)[0] == a[0]);
        assert((a + b).drop_first() =~= a.drop_first() + b);
        lemma_children_lines_concat(a.drop_first(), b);
        assert(children_lines(a + b) =~= children_lines(a) + children_lines(b));
    }
}

pub proof fn lemma_children_lines_single(c: IcalSpec)
    ensures
        children_lines(seq![c]) == ical_lines(c),
{
    assert(seq![c][0] == c);
    assert(seq![c].drop_first() =~= Seq::<IcalSpec>::empty());
    assert(children_lines(seq![c].drop_first()) == Seq::<Seq<char>>::empty());
    assert(children_lines(seq![c]) =~= ical_lines(c));
}

/// A cursor over the physical lines of an input text.
pub struct LineIterator {
    lines: Vec<String>,
    pos: usize,
}

impl LineIterator {
    /// The lines not yet handed out.
    pub closed spec fn remaining(&self) -> Seq<Seq<char>> {
        if self.pos <= self.lines@.len() {
            strs_view(self.lines@).skip(self.pos as int)
        } else {
            Seq::empty()
        }
    }

    /// Splits the text into physical lines, as std's line iterator does.
    pub fn new(s: &str) -> (r: Self)
        ensures
            r.remaining() == split_lines_spec(s@),
    {
        broadcast use group_views;

        let n = s.unicode_len();
        let mut lines: Vec<String> = Vec::new();
        let mut cur = String::new();
        proof {
            assert(strs_view(lines@) =~= Seq::<Seq<char>>::empty());
            assert(s@.skip(0) =~= s@);
            assert(split_lines_spec(s@) == strs_view(lines@) + split_lines_rec(s@.skip(0), cur@));
        }
        let mut i: usize = 0;
        while i < n
            invariant
                n == s@.len(),
                0 <= i <= n,
                split_lines_spec(s@) == strs_view(lines@) + split_lines_rec(
                    s@.skip(i as int),
                    cur@,
                ),
            decreases n - i,
        {
            proof {
                assert(s@.skip(i as int)[0] == s@[i as int]);
                assert(s@.skip(i as int).drop_first() =~= s@.skip(i + 1));
            }
            let c = s.get_char(i);
            if c == '\n' {
                let clen = cur.as_str().unicode_len();
                let stripped: String = if clen > 0 && cur.as_str().get_char(clen - 1) == '\r' {
                    let t = cur.as_str().substring_char(0, clen - 1).to_owned();
                    proof {
                        assert(t@ =~= strip_cr(cur@));
                    }
                    t
                } else {
                    cur
                };
                let ghost pre = lines@;
                let ghost sv = stripped@;
                lines.push(stripped);
                cur = String::new();
                proof {
                    assert(strs_view(lines@) =~= strs_view(pre).push(sv));
                    assert(strs_view(lines@) + split_lines_rec(s@.skip(i + 1), cur@)
                        =~= strs_view(pre) + (seq![sv] + split_lines_rec(s@.skip(i + 1), cur@)));
                }
            } else {
                push_char(&mut cur, c);
            }
            i += 1;
        }
        proof {
            assert(s@.skip(n as int) =~= Seq::<char>::empty());
        }
        if !cur.as_str().is_empty() {
            let ghost pre = lines@;
            let ghost sv = cur@;
            lines.push(cur);
            proof {
                assert(strs_view(lines@) =~= strs_view(pre).push(sv));
                assert(strs_view(lines@) =~= split_lines_spec(s@));
            }
        } else {
            proof {
                assert(strs_view(lines@) =~= split_lines_spec(s@));
            }
        }
        let r = Self { lines, pos: 0 };
        proof {
            assert(r.remaining() =~= strs_view(r.lines@));
        }
        r
    }
}

/// What one physical line did to the parser.
enum LineOutcome {
    More,
    Finished(Ical),
    Failed(Error),
}

/// Appends a property to the innermost open container; dropped when none is
/// open.
fn push_top(stack: &mut Vec<Ical>, p: Property)
    ensures
        stack_view(final(stack)@) == push_prop_top(stack_view(old(stack)@), p@),
{
    broadcast use group_views;

    if stack.len() > 0 {
        let ghost pre = stack@;
        let mut node = stack.pop().unwrap();
        let ghost nodepre = node;
        node.properties.push(p);
        proof {
            assert(props_view(node.properties@) =~= props_view(nodepre.properties@).push(p@));
            assert(ical_view(node) =~= (IcalSpec {
                props: ical_view(nodepre).props.push(p@),
                ..ical_view(nodepre)
            }));
        }
        stack.push(node);
        proof {
            assert(stack_view(stack@) =~= push_prop_top(stack_view(pre), p@));
        }
    } else {
        proof {
            assert(stack_view(stack@) == push_prop_top(stack_view(stack@), p@));
        }
    }
}

/// One line of the parser: continuation folding, buffering, and container
/// tracking, mirroring the model's step.
fn handle_line(stack: &mut Vec<Ical>, buf: &mut String, line: &str) -> (r: LineOutcome)
    ensures
        ({
            let st0 = ParseState {
                stack: stack_view(old(stack)@),
                buf: old(buf)@,
                done: None,
                err: None,
            };
            let st1 = step_line(st0, line@);
            match r {
                LineOutcome::More => st1.done is None && st1.err is None && st1.stack == stack_view(
                    final(stack)@,
                ) && st1.buf == final(buf)@,
                LineOutcome::Finished(n) => st1.err is None && st1.done == Some(ical_view(n)),
                LineOutcome::Failed(e) => match st1.err {
                    Some(k) => e.message@ == err_message_spec(k),
                    None => false,
                },
            }
        }),
{
    broadcast use group_views;

    let ghost st0 = ParseState {
        stack: stack_view(stack@),
        buf: buf@,
        done: None,
        err: None,
    };
    if is_blank(line) {
        return LineOutcome::More;
    }
    proof {
        assert(line@.len() > 0) by {
            if line@.len() == 0 {
                assert(crate::strutil::is_blank_spec(line@));
            }
        }
    }
    let c0 = line.get_char(0);
    if c0 == ' ' || c0 == '\t' {
        let rest = line.substring_char(1, line.unicode_len());
        proof {
            assert(rest@ =~= line@.drop_first());
        }
        if buf.as_str().is_empty() {
            if stack.len() > 0 {
                let ghost pre = stack@;
                let mut node = stack.pop().unwrap();
                let ghost nodepre = node;
                if node.properties.len() > 0 {
                    let p = node.properties.pop().unwrap();
                    proof {
                        assert(props_view(node.properties@) =~= props_view(
                            nodepre.properties@,
                        ).drop_last());
                        assert(p@ == props_view(nodepre.properties@).last());
                        assert(ical_view(node) =~= (IcalSpec {
                            props: ical_view(nodepre).props.drop_last(),
                            ..ical_view(nodepre)
                        }));
                    }
                    let s = p.serialize();
                    buf.append(s.as_str());
                    buf.append(rest);
                    stack.push(node);
                    proof {
                        assert(stack_view(stack@) =~= step_line(st0, line@).stack);
                        assert(buf@ =~= step_line(st0, line@).buf);
                    }
                } else {
                    stack.push(node);
                    buf.append(rest);
                    proof {
                        assert(stack_view(stack@) =~= stack_view(pre));
                        assert(buf@ =~= step_line(st0, line@).buf);
                    }
                }
            } else {
                buf.append(rest);
                proof {
                    assert(buf@ =~= step_line(st0, line@).buf);
                }
            }
        } else {
            buf.append(rest);
        }
        return LineOutcome::More;
    }
    let has_colon = contains_char(line, ':');
    if !has_colon && buf.as_str().is_empty() {
        buf.append(line);
        proof {
            assert(buf@ =~= line@);
        }
        return LineOutcome::More;
    }
    // flush the pending buffer, if any
    if !buf.as_str().is_empty() {
        match Property::parse(buf.as_str()) {
            Err(e) => {
                return LineOutcome::Failed(e);
            },
            Ok(p) => {
                push_top(stack, p);
                *buf = String::new();
            },
        }
    }
    let ghost stf = flush_buf(st0);
    proof {
        assert(stf.err is None);
        assert(stf.stack == stack_view(stack@));
        assert(stf.buf == buf@);
    }
    if !has_colon {
        buf.append(line);
        proof {
            assert(buf@ =~= line@);
        }
        return LineOutcome::More;
    }
    match Property::parse(line) {
        Err(e) => LineOutcome::Failed(e),
        Ok(p) => {
            proof {
                lemma_keywords();
            }
            if stack.len() == 0 {
                if eq_str(p.name.as_str(), "BEGIN") {
                    let node = Ical {
                        name: trim(p.value.as_str()).to_owned(),
                        properties: Vec::new(),
                        children: Vec::new(),
                    };
                    proof {
                        assert(ical_view(node).props =~= Seq::<PropSpec>::empty());
                        assert(ical_view(node).children =~= Seq::<IcalSpec>::empty());
                        assert(ical_view(node) =~= (IcalSpec {
                            name: trim_spec(p@.value),
                            props: Seq::empty(),
                            children: Seq::empty(),
                        }));
                    }
                    stack.push(node);
                    proof {
                        assert(stack_view(stack@) =~= handle_prop(stf, p@).stack);
                    }
                }
                return LineOutcome::More;
            }
            if eq_str(p.name.as_str(), "BEGIN") {
                let node = Ical {
                    name: trim(p.value.as_str()).to_owned(),
                    properties: Vec::new(),
                    children: Vec::new(),
                };
                proof {
                    assert(ical_view(node).props =~= Seq::<PropSpec>::empty());
                    assert(ical_view(node).children =~= Seq::<IcalSpec>::empty());
                    assert(ical_view(node) =~= (IcalSpec {
                        name: trim_spec(p@.value),
                        props: Seq::empty(),
                        children: Seq::empty(),
                    }));
                }
                stack.push(node);
                proof {
                    assert(stack_view(stack@) =~= handle_prop(stf, p@).stack);
                }
                return LineOutcome::More;
            }
            let is_end = eq_str(p.name.as_str(), "END");
            let end_matches = if is_end {
                let tn = trim(stack[stack.len() - 1].name.as_str());
                eq_str(p.value.as_str(), tn)
            } else {
                false
            };
            proof {
                assert(stack_view(stack@).last() == ical_view(stack@[stack@.len() - 1]));
            }
            if is_end && end_matches {
                let node = stack.pop().unwrap();
                if stack.len() == 0 {
                    proof {
                        assert(handle_prop(stf, p@).done == Some(ical_view(node)));
                    }
                    return LineOutcome::Finished(node);
                }
                let mut parent = stack.pop().unwrap();
                let ghost parentpre = parent;
                parent.children.push(node);
                proof {
                    assert(stack_view(parent.children@) =~= stack_view(
                        parentpre.children@,
                    ).push(ical_view(node)));
                    lemma_ical_view_children(parent);
                    lemma_ical_view_children(parentpre);
                    assert(ical_view(parent) =~= (IcalSpec {
                        children: ical_view(parentpre).children.push(ical_view(node)),
                        ..ical_view(parentpre)
                    }));
                }
                stack.push(parent);
                proof {
                    assert(stack_view(stack@) =~= handle_prop(stf, p@).stack);
                }
                return LineOutcome::More;
            }
            push_top(stack, p);
            proof {
                assert(stack_view(stack@) == handle_prop(stf, p@).stack);
            }
            LineOutcome::More
        },
    }
}

impl Ical {
    /// Creates a new, empty container. The name is the value of the
    /// surrounding `BEGIN:`/`END:` pair.
    pub fn new(name: String) -> (r: Self)
        ensures
            ical_view(r) == (IcalSpec {
                name: name@,
                props: Seq::empty(),
                children: Seq::empty(),
            }),
    {
        broadcast use group_views;

        let r = Self { name, properties: Vec::new(), children: Vec::new() };
        proof {
            assert(ical_view(r).props =~= Seq::<PropSpec>::empty());
            assert(ical_view(r).children =~= Seq::<IcalSpec>::empty());
            assert(ical_view(r) =~= (IcalSpec {
                name: r.name@,
                props: Seq::empty(),
                children: Seq::empty(),
            }));
        }
        r
    }

    /// The first child container with the given name.
    pub fn get(&self, child_name: &str) -> (r: Option<&Ical>)
        ensures
            ({
                let cs = ical_view(*self).children;
                let i = find_child(cs, child_name@);
                match r {
                    Some(c) => i < cs.len() && ical_view(*c) == cs[i],
                    None => i == cs.len(),
                }
            }),
    {
        broadcast use group_views;

        proof {
            lemma_ical_view_children(*self);
        }
        let n = self.children.len();
        let mut i: usize = 0;
        while i < n
            invariant
                n == self.children@.len(),
                0 <= i <= n,
                forall|j: int| 0 <= j < i ==> stack_view(self.children@)[j].name != child_name@,
            decreases n - i,
        {
            if eq_str(self.children[i].name.as_str(), child_name) {
                proof {
                    lemma_find_child(stack_view(self.children@), child_name@);
                    assert(stack_view(self.children@)[i as int].name == child_name@);
                    assert(find_child(stack_view(self.children@), child_name@) == i);
                    lemma_ical_view_children(*self);
                }
                return Some(&self.children[i]);
            }
            i += 1;
        }
        proof {
            lemma_find_child(stack_view(self.children@), child_name@);
            lemma_ical_view_children(*self);
        }
        None
    }

    /// The first child container with the given name, for mutation. The final
    /// value of the container keeps everything else unchanged.
    pub fn get_mut(&mut self, child_name: &str) -> (r: Option<&mut Ical>)
        ensures
            ({
                let cs = ical_view(*old(self)).children;
                let i = find_child(cs, child_name@);
                match r {
                    Some(c) => i < cs.len() && ical_view(*c) == cs[i]
                        && final(self).name == old(self).name
                        && final(self).properties@ == old(self).properties@
                        && final(self).children@ == old(self).children@.update(i, *final(c)),
                    None => i == cs.len() && *final(self) == *old(self),
                }
            }),
    {
        proof {
            lemma_ical_view_children(*old(self));
        }
        let n = self.children.len();
        let mut i: usize = 0;
        while i < n
            invariant
                self == old(self),
                n == self.children@.len(),
                0 <= i <= n,
                forall|j: int| 0 <= j < i ==> stack_view(self.children@)[j].name != child_name@,
            decreases n - i,
        {
            if eq_str(self.children[i].name.as_str(), child_name) {
                proof {
                    lemma_find_child(stack_view(self.children@), child_name@);
                    assert(stack_view(self.children@)[i as int].name == child_name@);
                    assert(find_child(stack_view(self.children@), child_name@) == i);
                    lemma_ical_view_children(*self);
                }
                let c = vstd::std_specs::vec::vec_index_mut(&mut self.children, i);
                return Some(c);
            }
            i += 1;
        }
        proof {
            lemma_find_child(stack_view(self.children@), child_name@);
            lemma_ical_view_children(*self);
        }
        None
    }

    /// Parses the remaining lines into one container.
    pub fn parse(lines: &mut LineIterator) -> (r: Result<Self, Error>)
        ensures
            match (r, parse_outcome(old(lines).remaining())) {
                (Ok(n), Ok(t)) => ical_view(n) == t,
                (Err(e), Err(k)) => e.message@ == err_message_spec(k),
                _ => false,
            },
    {
        broadcast use group_views;

        if lines.pos > lines.lines.len() {
            proof {
                assert(lines.remaining() =~= Seq::<Seq<char>>::empty());
                assert(run_lines(parse_init(), lines.remaining()) == parse_init());
            }
            return Err(Error { message: "Invalid input".to_owned() });
        }
        let ghost all = lines.remaining();
        let mut stack: Vec<Ical> = Vec::new();
        let mut buf = String::new();
        proof {
            assert(stack_view(stack@) =~= Seq::<IcalSpec>::empty());
            assert(all.take(0) =~= Seq::<Seq<char>>::empty());
            assert(run_lines(parse_init(), all.take(0)) == parse_init());
            assert(parse_init() =~= (ParseState {
                stack: stack_view(stack@),
                buf: buf@,
                done: None,
                err: None,
            }));
        }
        let ghost k: int = 0;
        while lines.pos < lines.lines.len()
            invariant
                lines.lines@ == old(lines).lines@,
                old(lines).pos <= lines.pos <= lines.lines@.len(),
                all == old(lines).remaining(),
                k == lines.pos - old(lines).pos,
                0 <= k <= all.len(),
                all.len() == lines.lines@.len() - old(lines).pos,
                run_lines(parse_init(), all.take(k)) == (ParseState {
                    stack: stack_view(stack@),
                    buf: buf@,
                    done: None,
                    err: None,
                }),
            decreases lines.lines@.len() - lines.pos,
        {
            let line = lines.lines[lines.pos].clone();
            lines.pos += 1;
            proof {
                assert(line@ == all[k]);
                lemma_run_snoc(parse_init(), all.take(k), all[k]);
                assert(all.take(k + 1) =~= all.take(k).push(all[k]));
            }
            match handle_line(&mut stack, &mut buf, line.as_str()) {
                LineOutcome::More => {
                    proof {
                        k = k + 1;
                    }
                },
                LineOutcome::Finished(n) => {
                    proof {
                        lemma_run_done(run_lines(parse_init(), all.take(k + 1)), all, k + 1);
                    }
                    return Ok(n);
                },
                LineOutcome::Failed(e) => {
                    proof {
                        lemma_run_err(run_lines(parse_init(), all.take(k + 1)), all, k + 1);
                    }
                    return Err(e);
                },
            }
        }
        proof {
            assert(all.take(k) =~= all);
        }
        if stack.len() > 0 {
            let mut m = "Missing END:".to_owned();
            m.append(stack[stack.len() - 1].name.as_str());
            proof {
                assert(stack_view(stack@).last() == ical_view(stack@[stack@.len() - 1]));
            }
            Err(Error { message: m })
        } else {
            Err(Error { message: "Invalid input".to_owned() })
        }
    }

    /// The wire text of this container: its `BEGIN` line, each property on
    /// its own line, each child in order, then its `END` line.
    pub fn serialize(&self) -> (r: String)
        ensures
            r@ == ical_serialized(ical_view(*self)),
        decreases *self,
    {
        broadcast use group_views;

        let ghost v = ical_view(*self);
        let mut out = "BEGIN:".to_owned();
        out.append(self.name.as_str());
        push_char(&mut out, '\n');
        proof {
            lemma_keywords();
            assert(out@ =~= begin_line(v.name) + seq!['\n']);
            assert(out@ =~= unlines(seq![begin_line(v.name)])) by {
                assert(seq![begin_line(v.name)][0] == begin_line(v.name));
                assert(seq![begin_line(v.name)].drop_first() =~= Seq::<Seq<char>>::empty());
                assert(unlines(seq![begin_line(v.name)]) == begin_line(v.name) + seq!['\n']
                    + unlines(Seq::<Seq<char>>::empty()));
                assert(unlines(seq![begin_line(v.name)]) =~= begin_line(v.name) + seq!['\n']);
            }
        }
        let np = self.properties.len();
        let mut i: usize = 0;
        while i < np
            invariant
                np == self.properties@.len(),
                v == ical_view(*self),
                0 <= i <= np,
                out@ == unlines(seq![begin_line(v.name)] + v.props.map_values(
                    |p: PropSpec| prop_serialized(p),
                ).take(i as int)),
            decreases np - i,
        {
            let ghost propl = v.props.map_values(|p: PropSpec| prop_serialized(p));
            let s = self.properties[i].serialize();
            out.append(s.as_str());
            push_char(&mut out, '\n');
            proof {
                assert(self.properties@[i as int]@ == v.props[i as int]);
                assert(propl[i as int] == prop_serialized(v.props[i as int]));
                lemma_unlines_concat(
                    seq![begin_line(v.name)] + propl.take(i as int),
                    seq![propl[i as int]],
                );
                assert(unlines(seq![propl[i as int]]) =~= propl[i as int] + seq!['\n']) by {
                    assert(seq![propl[i as int]][0] == propl[i as int]);
                    assert(seq![propl[i as int]].drop_first() =~= Seq::<Seq<char>>::empty());
                    assert(unlines(seq![propl[i as int]]) == propl[i as int] + seq!['\n']
                        + unlines(Seq::<Seq<char>>::empty()));
                    assert(unlines(Seq::<Seq<char>>::empty()) == Seq::<char>::empty());
                }
                assert(seq![begin_line(v.name)] + propl.take(i + 1) =~= (seq![begin_line(v.name)]
                    + propl.take(i as int)) + seq![propl[i as int]]);
                assert(out@ =~= unlines(seq![begin_line(v.name)] + propl.take(i + 1)));
            }
            i += 1;
        }
        let ghost propl = v.props.map_values(|p: PropSpec| prop_serialized(p));
        proof {
            assert(propl.take(np as int) =~= propl);
        }
        let nc = self.children.len();
        let mut j: usize = 0;
        while j < nc
            invariant
                nc == self.children@.len(),
                v == ical_view(*self),
                propl == v.props.map_values(|p: PropSpec| prop_serialized(p)),
                0 <= j <= nc,
                out@ == unlines(
                    seq![begin_line(v.name)] + propl + children_lines(v.children.take(j as int)),
                ),
            decreases nc - j,
        {
            let s = self.children[j].serialize();
            out.append(s.as_str());
            proof {
                assert(ical_view(self.children@[j as int]) == v.children[j as int]);
                lemma_children_lines_concat(v.children.take(j as int), seq![v.children[j as int]]);
                lemma_children_lines_single(v.children[j as int]);
                assert(v.children.take(j + 1) =~= v.children.take(j as int)
                    + seq![v.children[j as int]]);
                lemma_unlines_concat(
                    seq![begin_line(v.name)] + propl + children_lines(v.children.take(j as int)),
                    ical_lines(v.children[j as int]),
                );
                assert(seq![begin_line(v.name)] + propl + children_lines(v.children.take(j + 1))
                    =~= (seq![begin_line(v.name)] + propl + children_lines(
                    v.children.take(j as int),
                )) + ical_lines(v.children[j as int]));
                assert(out@ =~= unlines(
                    seq![begin_line(v.name)] + propl + children_lines(v.children.take(j + 1)),
                ));
            }
            j += 1;
        }
        proof {
            assert(v.children.take(nc as int) =~= v.children);
        }
        out.append("END:");
        out.append(self.name.as_str());
        push_char(&mut out, '\n');
        proof {
            lemma_keywords();
            lemma_unlines_concat(
                seq![begin_line(v.name)] + propl + children_lines(v.children),
                seq![end_line(v.name)],
            );
            assert(unlines(seq![end_line(v.name)]) =~= end_line(v.name) + seq!['\n']) by {
                assert(seq![end_line(v.name)][0] == end_line(v.name));
                assert(seq![end_line(v.name)].drop_first() =~= Seq::<Seq<char>>::empty());
                assert(unlines(seq![end_line(v.name)]) == end_line(v.name) + seq!['\n']
                    + unlines(Seq::<Seq<char>>::empty()));
                assert(unlines(Seq::<Seq<char>>::empty()) == Seq::<char>::empty());
            }
            assert(ical_lines(v) =~= (seq![begin_line(v.name)] + propl + children_lines(v.children))
                + seq![end_line(v.name)]);
            assert(out@ =~= ical_serialized(v));
        }
        out
    }
}

/// When the state already carries a result, further lines leave it as it is.
proof fn lemma_run_stays(st: ParseState, ls: Seq<Seq<char>>)
    requires
        st.done is Some || st.err is Some,
    ensures
        run_lines(st, ls) == st,
    decreases ls.len(),
{
    if ls.len() > 0 {
        assert(step_line(st, ls[0]) == st);
        lemma_run_stays(st, ls.drop_first());
    }
}

proof fn lemma_run_done(st: ParseState, all: Seq<Seq<char>>, k: int)
    requires
        0 <= k <= all.len(),
        st == run_lines(parse_init(), all.take(k)),
        st.done is Some,
        st.err is None,
    ensures
        run_lines(parse_init(), all) == st,
{
    lemma_run_concat(parse_init(), all.take(k), all.skip(k));
    assert(all.take(k) + all.skip(k) =~= all);
    lemma_run_stays(st, all.skip(k));
}

proof fn lemma_run_err(st: ParseState, all: Seq<Seq<char>>, k: int)
    requires
        0 <= k <= all.len(),
        st == run_lines(parse_init(), all.take(k)),
        st.err is Some,
    ensures
        run_lines(parse_init(), all) == st,
{
    lemma_run_concat(parse_init(), all.take(k), all.skip(k));
    assert(all.take(k) + all.skip(k) =~= all);
    lemma_run_stays(st, all.skip(k));
}

/// Running over a concatenation runs over each part in turn.
pub proof fn lemma_run_concat(st: ParseState, a: Seq<Seq<char>>, b: Seq<Seq<char>>)
    ensures
        run_lines(st, a + b) == run_lines(run_lines(st, a), b),
    decreases a.len(),
{
    if a.len() == 0 {
        assert(a + b =~= b);
    } else {
        assert((a + b)[0] == a[0]);
        assert((a + b).drop_first() =~= a.drop_first() + b);
        lemma_run_concat(step_line(st, a[0]), a.drop_first(), b);
    }
}

} // verus!
