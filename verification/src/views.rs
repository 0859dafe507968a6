//! The model values of the codec's data: each executable type is read as a
//! ghost value over character sequences, and the lemmas below hand the
//! verifier the length and indexing facts of those readings.

use vstd::prelude::*;

use crate::ical::Attr;
use crate::ical::Ical;
use crate::ical::Property;
use crate::ical_model::AttrSpec;
use crate::ical_model::IcalSpec;
use crate::ical_model::PropSpec;

verus! {

/// The views of a parameter list.
pub open spec fn attrs_view(s: Seq<Attr>) -> Seq<AttrSpec> {
    Seq::new(s.len(), |i: int| s[i]@)
}

pub broadcast proof fn lemma_attrs_view_len(s: Seq<Attr>)
    ensures
        (#[trigger] attrs_view(s)).len() == s.len(),
{
}

pub broadcast proof fn lemma_attrs_view_index(s: Seq<Attr>, i: int)
    requires
        0 <= i < s.len(),
    ensures
        #[trigger] attrs_view(s)[i] == s[i]@,
{
}

/// The views of a list of strings.
pub open spec fn strs_view(s: Seq<String>) -> Seq<Seq<char>> {
    Seq::new(s.len(), |i: int| s[i]@)
}

pub broadcast proof fn lemma_strs_view_len(s: Seq<String>)
    ensures
        (#[trigger] strs_view(s)).len() == s.len(),
{
}

pub broadcast proof fn lemma_strs_view_index(s: Seq<String>, i: int)
    requires
        0 <= i < s.len(),
    ensures
        #[trigger] strs_view(s)[i] == s[i]@,
{
}

/// The views of a property list.
pub open spec fn props_view(s: Seq<Property>) -> Seq<PropSpec> {
    Seq::new(s.len(), |i: int| s[i]@)
}

pub broadcast proof fn lemma_props_view_len(s: Seq<Property>)
    ensures
        (#[trigger] props_view(s)).len() == s.len(),
{
}

pub broadcast proof fn lemma_props_view_index(s: Seq<Property>, i: int)
    requires
        0 <= i < s.len(),
    ensures
        #[trigger] props_view(s)[i] == s[i]@,
{
}

pub open spec fn empty_node() -> IcalSpec {
    IcalSpec { name: Seq::empty(), props: Seq::empty(), children: Seq::empty() }
}

/// The model value of a container.
pub open spec fn ical_view(n: Ical) -> IcalSpec
    decreases n,
{
    IcalSpec {
        name: n.name@,
        props: props_view(n.properties@),
        children: Seq::new(
            n.children@.len(),
            |i: int|
                if 0 <= i < n.children@.len() {
                    ical_view(n.children@[i])
                } else {
                    empty_node()
                },
        ),
    }
}

/// The model values of a list of containers.
pub open spec fn stack_view(s: Seq<Ical>) -> Seq<IcalSpec> {
    Seq::new(s.len(), |i: int| ical_view(s[i]))
}

pub broadcast proof fn lemma_stack_view_len(s: Seq<Ical>)
    ensures
        (#[trigger] stack_view(s)).len() == s.len(),
{
}

pub broadcast proof fn lemma_stack_view_index(s: Seq<Ical>, i: int)
    requires
        0 <= i < s.len(),
    ensures
        #[trigger] stack_view(s)[i] == ical_view(s[i]),
{
}

/// How the model value of a container reads off its fields.
pub broadcast proof fn lemma_ical_view_fields(n: Ical)
    ensures
        (#[trigger] ical_view(n)).name == n.name@,
        ical_view(n).props == props_view(n.properties@),
        ical_view(n).children == stack_view(n.children@),
{
    assert(ical_view(n).props =~= props_view(n.properties@));
    assert(ical_view(n).children =~= stack_view(n.children@));
}

/// The index and length facts of the view maps.
pub broadcast group group_views {
    lemma_attrs_view_len,
    lemma_attrs_view_index,
    lemma_props_view_len,
    lemma_props_view_index,
    lemma_stack_view_len,
    lemma_stack_view_index,
    lemma_strs_view_len,
    lemma_strs_view_index,
    lemma_ical_view_fields,
}

} // verus!
