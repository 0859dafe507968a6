use vstd::prelude::*;

use crate::ical::lemma_find_char;
use crate::ical_model::AttrSpec;
use crate::ical_model::IcalSpec;
use crate::ical_model::PropSpec;
use crate::ical_model::ScanState;
use crate::ical_model::attr_of_piece;
use crate::ical_model::attr_serialized;
use crate::ical_model::attrs_insert;
use crate::ical_model::attrs_of_pieces;
use crate::ical_model::attrs_serialized;
use crate::ical_model::begin_line;
use crate::ical_model::begin_name;
use crate::ical_model::end_line;
use crate::ical_model::end_name;
use crate::ical_model::find_attr;
use crate::ical_model::find_char;
use crate::ical_model::parse_prop_spec;
use crate::ical_model::prop_serialized;
use crate::ical_model::scan_init;
use crate::ical_model::scan_run;
use crate::ical_model::scan_step;
use crate::ical_model::split_semi;
use crate::ical_model::split_semi_rec;
use crate::strutil::is_space;
use crate::strutil::lemma_trim_bounds;
use crate::strutil::trim_spec;

verus! {

// ---------------------------------------------------------------------------
// The shapes of values for which the codec's round trip is stated: names
// without separator characters, values without line breaks, attribute keys
// that are unique within one property.
// ---------------------------------------------------------------------------

/// No line break characters.
pub open spec fn plain(s: Seq<char>) -> bool {
    forall|i: int| 0 <= i < s.len() ==> #[trigger] s[i] != '\n' && s[i] != '\r'
}

pub open spec fn name_char_ok(c: char) -> bool {
    c != ':' && c != '"' && c != ';' && c != '\n' && c != '\r'
}

/// A property name as it stands on an unfolded wire line: nonempty, free of
/// separators and quotes, with no surrounding whitespace.
pub open spec fn simple_name(s: Seq<char>) -> bool {
    s.len() > 0 && trim_spec(s) == s && forall|i: int|
        0 <= i < s.len() ==> name_char_ok(#[trigger] s[i])
}

pub open spec fn attr_key_ok(s: Seq<char>) -> bool {
    forall|i: int|
        0 <= i < s.len() ==> name_char_ok(#[trigger] s[i]) && s[i] != '='
}

pub open spec fn attr_val_ok(s: Seq<char>) -> bool {
    forall|i: int| 0 <= i < s.len() ==> name_char_ok(#[trigger] s[i])
}

/// A property that serializes onto one line and parses back as itself.
pub open spec fn simple_prop(p: PropSpec) -> bool {
    &&& simple_name(p.name)
    &&& p.name != begin_name()
    &&& p.name != end_name()
    &&& plain(p.value)
    &&& forall|i: int|
        0 <= i < p.attrs.len() ==> attr_key_ok(#[trigger] p.attrs[i].name) && attr_val_ok(
            p.attrs[i].value,
        ) && p.attrs[i].name.len() > 0
    &&& forall|i: int, j: int|
        0 <= i < j < p.attrs.len() ==> (#[trigger] p.attrs[i].name) != (#[trigger] p.attrs[j].name)
}

// ---------------------------------------------------------------------------
// Small trim facts.
// ---------------------------------------------------------------------------

/// A sequence without whitespace is its own trim.
pub proof fn lemma_trim_no_space(s: Seq<char>)
    requires
        forall|i: int| 0 <= i < s.len() ==> !is_space(#[trigger] s[i]),
    ensures
        trim_spec(s) == s,
{
    lemma_trim_bounds(s, 0, s.len() as int);
    assert(s.subrange(0, s.len() as int) =~= s);
}

/// A trim-stable, nonempty sequence has no whitespace at either end.
pub proof fn lemma_trim_stable_ends(s: Seq<char>)
    requires
        trim_spec(s) == s,
        s.len() > 0,
    ensures
        !is_space(s[0]),
        !is_space(s[s.len() - 1]),
{
    crate::strutil::lemma_trim_start_prefix(s);
    let k = choose|k: int|
        0 <= k <= s.len() && crate::strutil::trim_start_spec(s) == s.subrange(k, s.len() as int)
            && (forall|j: int| 0 <= j < k ==> is_space(s[j])) && (k < s.len() ==> !is_space(s[k]));
    let t = crate::strutil::trim_start_spec(s);
    crate::strutil::lemma_trim_end_prefix(t);
    let m = choose|m: int|
        0 <= m <= t.len() && crate::strutil::trim_end_spec(t) == t.subrange(0, m) && (forall|
            j: int,
        | m <= j < t.len() ==> is_space(t[j])) && (m > 0 ==> !is_space(t[m - 1]));
    assert(trim_spec(s).len() == m);
    assert(t.len() == s.len() - k);
    assert(m <= t.len());
    assert(k == 0 && m == t.len());
    assert(!is_space(s[0])) by {
        if is_space(s[0]) {
            assert(k > 0 || (k < s.len() && !is_space(s[k])));
        }
    }
    assert(!is_space(s[s.len() - 1])) by {
        if is_space(s[s.len() - 1]) {
            assert(t[t.len() - 1] == s[s.len() - 1]);
        }
    }
}

// ---------------------------------------------------------------------------
// Scanning a serialized property line.
// ---------------------------------------------------------------------------

pub proof fn lemma_scan_concat(st: ScanState, a: Seq<char>, b: Seq<char>)
    ensures
        scan_run(st, a + b) == scan_run(scan_run(st, a), b),
    decreases a.len(),
{
    if a.len() == 0 {
        assert(a + b =~= b);
    } else {
        assert((a + b)[0] == a[0]);
        assert((a + b).drop_first() =~= a.drop_first() + b);
        lemma_scan_concat(scan_step(st, a[0]), a.drop_first(), b);
    }
}

/// Scanning text without colons or quotes, before the separator was seen,
/// appends it all to the name.
pub proof fn lemma_scan_name(st: ScanState, cs: Seq<char>)
    requires
        !st.read_value,
        !st.ignore,
        forall|i: int| 0 <= i < cs.len() ==> #[trigger] cs[i] != ':' && cs[i] != '"',
    ensures
        scan_run(st, cs) == (ScanState { name: st.name + cs, ..st }),
    decreases cs.len(),
{
    if cs.len() == 0 {
        assert(st.name + cs =~= st.name);
        assert(scan_run(st, cs) =~= (ScanState { name: st.name + cs, ..st }));
    } else {
        let st1 = scan_step(st, cs[0]);
        assert(st1 == (ScanState { name: st.name.push(cs[0]), ..st }));
        lemma_scan_name(st1, cs.drop_first());
        assert(st.name.push(cs[0]) + cs.drop_first() =~= st.name + cs);
    }
}

/// After the separator, scanning appends everything to the value.
pub proof fn lemma_scan_value(st: ScanState, cs: Seq<char>)
    requires
        st.read_value,
    ensures
        scan_run(st, cs).name == st.name,
        scan_run(st, cs).value == st.value + cs,
        scan_run(st, cs).read_value,
    decreases cs.len(),
{
    if cs.len() == 0 {
        assert(st.value + cs =~= st.value);
    } else {
        let st1 = scan_step(st, cs[0]);
        assert(st1.read_value && st1.name == st.name && st1.value == st.value.push(cs[0]));
        lemma_scan_value(st1, cs.drop_first());
        assert(st.value.push(cs[0]) + cs.drop_first() =~= st.value + cs);
    }
}

// ---------------------------------------------------------------------------
// Splitting the name segment.
// ---------------------------------------------------------------------------

/// Splitting consumes a semicolon-free prefix into the current piece.
pub proof fn lemma_split_semi_prefix(a: Seq<char>, b: Seq<char>, cur: Seq<char>)
    requires
        forall|i: int| 0 <= i < a.len() ==> #[trigger] a[i] != ';',
    ensures
        split_semi_rec(a + b, cur) == split_semi_rec(b, cur + a),
    decreases a.len(),
{
    if a.len() == 0 {
        assert(a + b =~= b);
        assert(cur + a =~= cur);
    } else {
        assert((a + b)[0] == a[0]);
        assert((a + b).drop_first() =~= a.drop_first() + b);
        lemma_split_semi_prefix(a.drop_first(), b, cur.push(a[0]));
        assert(cur.push(a[0]) + a.drop_first() =~= cur + a);
    }
}

/// The serialized attribute pieces, in order.
pub open spec fn attr_piece(a: AttrSpec) -> Seq<char> {
    a.name + seq!['='] + a.value
}

pub open spec fn attr_pieces(attrs: Seq<AttrSpec>) -> Seq<Seq<char>>
    decreases attrs.len(),
{
    if attrs.len() == 0 {
        Seq::empty()
    } else {
        seq![attr_piece(attrs[0])] + attr_pieces(attrs.drop_first())
    }
}

/// Splitting the serialized attributes yields the current piece followed by
/// one piece per attribute.
pub proof fn lemma_split_attrs(attrs: Seq<AttrSpec>, cur: Seq<char>)
    requires
        forall|i: int|
            0 <= i < attrs.len() ==> attr_key_ok(#[trigger] attrs[i].name) && attr_val_ok(
                attrs[i].value,
            ),
    ensures
        split_semi_rec(attrs_serialized(attrs), cur) == seq![cur] + attr_pieces(attrs),
    decreases attrs.len(),
{
    if attrs.len() == 0 {
        assert(split_semi_rec(attrs_serialized(attrs), cur) =~= seq![cur] + attr_pieces(attrs));
    } else {
        let a = attrs[0];
        let rest = attrs.drop_first();
        assert(attrs_serialized(attrs) == attr_serialized(a) + attrs_serialized(rest));
        assert(attr_serialized(a) == seq![';'] + a.name + seq!['='] + a.value);
        let piece = attr_piece(a);
        assert(attrs_serialized(attrs) =~= seq![';'] + (piece + attrs_serialized(rest)));
        assert(attrs_serialized(attrs)[0] == ';');
        assert(attrs_serialized(attrs).drop_first() =~= piece + attrs_serialized(rest));
        assert(split_semi_rec(attrs_serialized(attrs), cur) == seq![cur] + split_semi_rec(
            piece + attrs_serialized(rest),
            Seq::empty(),
        ));
        assert(forall|i: int| 0 <= i < piece.len() ==> #[trigger] piece[i] != ';') by {
            assert(forall|i: int| 0 <= i < a.name.len() ==> #[trigger] a.name[i] != ';');
            assert(forall|i: int| 0 <= i < a.value.len() ==> #[trigger] a.value[i] != ';');
        }
        lemma_split_semi_prefix(piece, attrs_serialized(rest), Seq::empty());
        assert(Seq::<char>::empty() + piece =~= piece);
        lemma_split_attrs(rest, piece);
        assert(seq![cur] + (seq![piece] + attr_pieces(rest)) =~= seq![cur] + attr_pieces(attrs));
    }
}

// ---------------------------------------------------------------------------
// Attribute pieces parse back to the attribute list.
// ---------------------------------------------------------------------------

pub proof fn lemma_attr_of_piece(a: AttrSpec)
    requires
        attr_key_ok(a.name),
        attr_val_ok(a.value),
    ensures
        attr_of_piece(attr_piece(a)) == Some(a),
{
    let piece = attr_piece(a);
    lemma_find_char(piece, '=');
    let i = find_char(piece, '=');
    assert(piece[a.name.len() as int] == '=');
    assert(i == a.name.len()) by {
        if i < a.name.len() {
            assert(piece[i] == a.name[i]);
        }
        if i > a.name.len() {
            assert(piece[a.name.len() as int] != '=');
        }
    }
    assert(piece.subrange(0, i) =~= a.name);
    assert(piece.subrange(i + 1, piece.len() as int) =~= a.value);
    assert(attr_of_piece(piece) == Some(AttrSpec { name: a.name, value: a.value }));
    assert(AttrSpec { name: a.name, value: a.value } =~= a);
}

/// Where `find_attr` points, as in the codec's search.
pub proof fn lemma_find_attr_absent(attrs: Seq<AttrSpec>, key: Seq<char>)
    requires
        forall|i: int| 0 <= i < attrs.len() ==> (#[trigger] attrs[i].name) != key,
    ensures
        find_attr(attrs, key) == attrs.len(),
    decreases attrs.len(),
{
    if attrs.len() > 0 {
        assert(attrs[0].name != key);
        lemma_find_attr_absent(attrs.drop_first(), key);
        assert(forall|i: int|
            0 <= i < attrs.drop_first().len() ==> (#[trigger] attrs.drop_first()[i].name) != key)
            by {
            assert(forall|i: int|
                0 <= i < attrs.drop_first().len() ==> attrs.drop_first()[i] == attrs[i + 1]);
        }
    }
}

/// Inserting the pieces of a unique-keyed attribute list into an accumulator
/// with disjoint keys appends them in order.
pub proof fn lemma_attrs_of_pieces(attrs: Seq<AttrSpec>, acc: Seq<AttrSpec>)
    requires
        forall|i: int|
            0 <= i < attrs.len() ==> attr_key_ok(#[trigger] attrs[i].name) && attr_val_ok(
                attrs[i].value,
            ),
        forall|i: int, j: int|
            0 <= i < j < attrs.len() ==> (#[trigger] attrs[i].name) != (#[trigger] attrs[j].name),
        forall|i: int, j: int|
            0 <= i < acc.len() && 0 <= j < attrs.len() ==> (#[trigger] acc[i].name) != (
            #[trigger] attrs[j].name),
    ensures
        attrs_of_pieces(attr_pieces(attrs), acc) == acc + attrs,
    decreases attrs.len(),
{
    if attrs.len() == 0 {
        assert(attrs_of_pieces(attr_pieces(attrs), acc) =~= acc + attrs);
    } else {
        let a = attrs[0];
        let rest = attrs.drop_first();
        assert(attr_pieces(attrs)[0] == attr_piece(a));
        assert(attr_pieces(attrs).drop_first() =~= attr_pieces(rest));
        lemma_attr_of_piece(a);
        assert(forall|i: int| 0 <= i < acc.len() ==> (#[trigger] acc[i].name) != a.name);
        lemma_find_attr_absent(acc, a.name);
        assert(attrs_insert(acc, a) == acc.push(a));
        let acc2 = acc.push(a);
        assert(forall|i: int|
            0 <= i < rest.len() ==> attr_key_ok(#[trigger] rest[i].name) && attr_val_ok(
                rest[i].value,
            ) && rest[i] == attrs[i + 1]);
        assert(forall|i: int, j: int|
            0 <= i < j < rest.len() ==> (#[trigger] rest[i].name) != (#[trigger] rest[j].name))
            by {
            assert(forall|i: int| 0 <= i < rest.len() ==> rest[i] == attrs[i + 1]);
        }
        assert(forall|i: int, j: int|
            0 <= i < acc2.len() && 0 <= j < rest.len() ==> (#[trigger] acc2[i].name) != (
            #[trigger] rest[j].name)) by {
            assert(forall|i: int| 0 <= i < rest.len() ==> rest[i] == attrs[i + 1]);
            assert(forall|i: int| 0 <= i < acc.len() ==> acc2[i] == acc[i]);
            assert(acc2[acc.len() as int] == a);
        }
        lemma_attrs_of_pieces(rest, acc2);
        assert(acc.push(a) + rest =~= acc + attrs);
    }
}

// ---------------------------------------------------------------------------
// The round trip of one property line.
// ---------------------------------------------------------------------------

/// A simple property's serialized line parses back to the property itself.
pub proof fn lemma_prop_round_trip(p: PropSpec)
    requires
        simple_prop(p),
    ensures
        parse_prop_spec(prop_serialized(p)) == Some(p),
{
    let name_seg = p.name + attrs_serialized(p.attrs);
    let line = prop_serialized(p);
    assert(line =~= name_seg + (seq![':'] + p.value));
    // scan: the name segment holds no colon and no quote
    assert(forall|i: int|
        0 <= i < name_seg.len() ==> #[trigger] name_seg[i] != ':' && name_seg[i] != '"') by {
        lemma_attrs_serialized_chars(p.attrs);
        assert(forall|i: int|
            0 <= i < attrs_serialized(p.attrs).len() ==> name_seg[i + p.name.len()]
                == attrs_serialized(p.attrs)[i]);
    }
    lemma_scan_concat(scan_init(), name_seg, seq![':'] + p.value);
    lemma_scan_name(scan_init(), name_seg);
    let st1 = scan_run(scan_init(), name_seg);
    assert(st1.name =~= name_seg);
    assert(!st1.read_value && !st1.ignore);
    assert((seq![':'] + p.value)[0] == ':');
    let st2 = scan_step(st1, ':');
    assert(st2.read_value && st2.name == st1.name && st2.value == st1.value);
    assert((seq![':'] + p.value).drop_first() =~= p.value);
    assert(scan_run(st1, seq![':'] + p.value) == scan_run(st2, p.value));
    lemma_scan_value(st2, p.value);
    let sc = scan_run(scan_init(), line);
    assert(sc.read_value);
    assert(sc.name == name_seg);
    assert(sc.value =~= p.value);
    // split the name segment
    assert(forall|i: int| 0 <= i < p.name.len() ==> #[trigger] p.name[i] != ';');
    lemma_split_semi_prefix(p.name, attrs_serialized(p.attrs), Seq::empty());
    assert(Seq::<char>::empty() + p.name =~= p.name);
    lemma_split_attrs(p.attrs, p.name);
    assert(split_semi(name_seg) == seq![p.name] + attr_pieces(p.attrs));
    let pieces = split_semi(sc.name);
    assert(pieces[0] == p.name);
    assert(pieces.drop_first() =~= attr_pieces(p.attrs));
    lemma_attrs_of_pieces(p.attrs, Seq::empty());
    assert(Seq::<AttrSpec>::empty() + p.attrs =~= p.attrs);
    assert(parse_prop_spec(line) == Some(
        PropSpec { name: trim_spec(p.name), value: sc.value, attrs: p.attrs },
    ));
    assert(PropSpec { name: trim_spec(p.name), value: sc.value, attrs: p.attrs } =~= p);
}

/// Serialized attributes hold neither colons nor quotes.
pub proof fn lemma_attrs_serialized_chars(attrs: Seq<AttrSpec>)
    requires
        forall|i: int|
            0 <= i < attrs.len() ==> attr_key_ok((#[trigger] attrs[i]).name) && attr_val_ok(
                attrs[i].value,
            ),
    ensures
        forall|i: int|
            0 <= i < attrs_serialized(attrs).len() ==> #[trigger] attrs_serialized(attrs)[i] != ':'
                && attrs_serialized(attrs)[i] != '"',
    decreases attrs.len(),
{
    if attrs.len() > 0 {
        let a = attrs[0];
        let rest = attrs.drop_first();
        assert forall|i: int|
            0 <= i < rest.len() implies attr_key_ok((#[trigger] rest[i]).name) && attr_val_ok(
            rest[i].value,
        ) by {
            assert(rest[i] == attrs[i + 1]);
            assert(attr_key_ok(attrs[i + 1].name) && attr_val_ok(attrs[i + 1].value));
        }
        lemma_attrs_serialized_chars(rest);
        let seg = attr_serialized(a);
        assert(forall|i: int| 0 <= i < seg.len() ==> #[trigger] seg[i] != ':' && seg[i] != '"')
            by {
            assert(seg[0] == ';');
            assert(forall|i: int| 0 <= i < a.name.len() ==> seg[1 + i] == a.name[i]);
            assert(seg[1 + a.name.len() as int] == '=');
            assert(forall|i: int|
                0 <= i < a.value.len() ==> seg[2 + a.name.len() as int + i] == a.value[i]);
        }
        assert(attrs_serialized(attrs) == seg + attrs_serialized(rest));
        assert(forall|i: int|
            0 <= i < attrs_serialized(attrs).len() ==> #[trigger] attrs_serialized(attrs)[i] != ':'
                && attrs_serialized(attrs)[i] != '"') by {
            assert(forall|i: int|
                0 <= i < attrs_serialized(attrs).len() ==> attrs_serialized(attrs)[i] == (seg
                    + attrs_serialized(rest))[i]);
        }
    }
}


// ---------------------------------------------------------------------------
// The round trip of a whole container.
// ---------------------------------------------------------------------------

/// A container tree whose serialized text parses back as itself: names are
/// trim-stable and free of line breaks, every property is simple, and so is
/// every child.
pub open spec fn simple_node(t: IcalSpec) -> bool
    decreases t,
{
    &&& t.name.len() > 0
    &&& trim_spec(t.name) == t.name
    &&& plain(t.name)
    &&& forall|i: int| 0 <= i < t.props.len() ==> simple_prop(#[trigger] t.props[i])
    &&& simple_children(t.children)
}

pub open spec fn simple_children(cs: Seq<IcalSpec>) -> bool
    decreases cs,
{
    if cs.len() == 0 {
        true
    } else {
        simple_node(cs[0]) && simple_children(cs.drop_first())
    }
}

/// A physical line that the splitter hands back unchanged.
pub open spec fn good_line(l: Seq<char>) -> bool {
    plain(l)
}

/// The `BEGIN` line of a container parses as a property named `BEGIN` whose
/// value is the container's name.
pub proof fn lemma_parse_begin_line(name: Seq<char>)
    ensures
        parse_prop_spec(begin_line(name)) == Some(
            PropSpec { name: begin_name(), value: name, attrs: Seq::empty() },
        ),
{
    lemma_parse_keyword_line(begin_name(), name);
}

pub proof fn lemma_parse_end_line(name: Seq<char>)
    ensures
        parse_prop_spec(end_line(name)) == Some(
            PropSpec { name: end_name(), value: name, attrs: Seq::empty() },
        ),
{
    lemma_parse_keyword_line(end_name(), name);
}

proof fn lemma_parse_keyword_line(kw: Seq<char>, name: Seq<char>)
    requires
        kw == begin_name() || kw == end_name(),
    ensures
        parse_prop_spec(kw + seq![':'] + name) == Some(
            PropSpec { name: kw, value: name, attrs: Seq::empty() },
        ),
{
    let line = kw + seq![':'] + name;
    assert(line =~= kw + (seq![':'] + name));
    lemma_scan_concat(scan_init(), kw, seq![':'] + name);
    assert(forall|i: int| 0 <= i < kw.len() ==> #[trigger] kw[i] != ':' && kw[i] != '"');
    lemma_scan_name(scan_init(), kw);
    let st1 = scan_run(scan_init(), kw);
    assert(st1.name =~= kw);
    assert((seq![':'] + name)[0] == ':');
    let st2 = scan_step(st1, ':');
    assert((seq![':'] + name).drop_first() =~= name);
    assert(scan_run(st1, seq![':'] + name) == scan_run(st2, name));
    lemma_scan_value(st2, name);
    let sc = scan_run(scan_init(), line);
    assert(sc.read_value && sc.name == kw && sc.value =~= name);
    assert(forall|i: int| 0 <= i < kw.len() ==> #[trigger] kw[i] != ';');
    lemma_split_semi_prefix(kw, Seq::empty(), Seq::empty());
    assert(kw + Seq::<char>::empty() =~= kw);
    assert(Seq::<char>::empty() + kw =~= kw);
    assert(split_semi(kw) == seq![kw]);
    assert(split_semi(sc.name)[0] == kw);
    assert(split_semi(sc.name).drop_first() =~= Seq::<Seq<char>>::empty());
    assert(forall|i: int| 0 <= i < kw.len() ==> !is_space(#[trigger] kw[i]));
    lemma_trim_no_space(kw);
    assert(parse_prop_spec(line) == Some(PropSpec { name: kw, value: sc.value, attrs: Seq::empty() }));
}

/// Shape facts of the lines a simple container serializes to, as the
/// line-stepping machine tests them.
proof fn lemma_prop_line_shape(p: PropSpec)
    requires
        simple_prop(p),
    ensures
        prop_serialized(p).len() > 0,
        prop_serialized(p)[0] == p.name[0],
        !is_space(prop_serialized(p)[0]),
        !crate::strutil::is_blank_spec(prop_serialized(p)),
        prop_serialized(p).contains(':'),
{
    let l = prop_serialized(p);
    assert(l[0] == p.name[0]);
    lemma_trim_stable_ends(p.name);
    assert(!is_space(l[0]));
    assert(!crate::strutil::is_blank_spec(l));
    let ci = p.name.len() + attrs_serialized(p.attrs).len();
    assert(l[ci as int] == ':');
    assert(l.contains(':'));
}

proof fn lemma_keyword_line_shape(kw: Seq<char>, name: Seq<char>)
    requires
        kw == begin_name() || kw == end_name(),
    ensures
        (kw + seq![':'] + name)[0] == kw[0],
        !is_space((kw + seq![':'] + name)[0]),
        !crate::strutil::is_blank_spec(kw + seq![':'] + name),
        (kw + seq![':'] + name).contains(':'),
{
    let l = kw + seq![':'] + name;
    assert(l[0] == kw[0]);
    assert(!is_space(l[0]));
    assert(!crate::strutil::is_blank_spec(l));
    assert(l[kw.len() as int] == ':');
    assert(l.contains(':'));
}

/// One property line appends the property to the innermost open container.
proof fn lemma_step_prop(st: crate::ical_model::ParseState, p: PropSpec)
    requires
        st.err is None,
        st.done is None,
        st.buf.len() == 0,
        st.stack.len() > 0,
        simple_prop(p),
    ensures
        crate::ical_model::step_line(st, prop_serialized(p)) == (crate::ical_model::ParseState {
            stack: crate::ical_model::push_prop_top(st.stack, p),
            ..st
        }),
{
    let l = prop_serialized(p);
    lemma_prop_line_shape(p);
    lemma_prop_round_trip(p);
    assert(crate::ical_model::flush_buf(st) == st);
    assert(p.name != begin_name() && p.name != end_name());
}

/// A `BEGIN` line opens a new innermost container.
proof fn lemma_step_begin(st: crate::ical_model::ParseState, name: Seq<char>)
    requires
        st.err is None,
        st.done is None,
        st.buf.len() == 0,
        trim_spec(name) == name,
    ensures
        crate::ical_model::step_line(st, begin_line(name)) == (crate::ical_model::ParseState {
            stack: st.stack.push(IcalSpec { name: name, props: Seq::empty(), children: Seq::empty() }),
            ..st
        }),
{
    lemma_keyword_line_shape(begin_name(), name);
    lemma_parse_begin_line(name);
    assert(crate::ical_model::flush_buf(st) == st);
    assert(begin_name()[0] == 'B');
    if st.stack.len() == 0 {
        assert(seq![IcalSpec { name: name, props: Seq::empty(), children: Seq::empty() }]
            =~= st.stack.push(IcalSpec { name: name, props: Seq::empty(), children: Seq::empty() }));
    } else {
        assert(begin_name() != end_name()) by {
            assert(begin_name().len() != end_name().len());
        }
    }
}

/// A matching `END` line closes the innermost container: the root becomes the
/// result, a child is appended to its parent.
proof fn lemma_step_end(st: crate::ical_model::ParseState, name: Seq<char>)
    requires
        st.err is None,
        st.done is None,
        st.buf.len() == 0,
        st.stack.len() > 0,
        st.stack.last().name == name,
        trim_spec(name) == name,
    ensures
        st.stack.len() == 1 ==> crate::ical_model::step_line(st, end_line(name))
            == (crate::ical_model::ParseState {
            stack: Seq::empty(),
            done: Some(st.stack.last()),
            ..st
        }),
        st.stack.len() > 1 ==> crate::ical_model::step_line(st, end_line(name))
            == (crate::ical_model::ParseState {
            stack: st.stack.drop_last().update(
                st.stack.len() - 2,
                IcalSpec {
                    children: st.stack[st.stack.len() - 2].children.push(st.stack.last()),
                    ..st.stack[st.stack.len() - 2]
                },
            ),
            ..st
        }),
{
    lemma_keyword_line_shape(end_name(), name);
    lemma_parse_end_line(name);
    assert(crate::ical_model::flush_buf(st) == st);
    assert(end_name()[0] == 'E');
    assert(end_name() != begin_name()) by {
        assert(begin_name().len() != end_name().len());
    }
}


/// Running one line is one step.
proof fn lemma_run_single(st: crate::ical_model::ParseState, l: Seq<char>)
    ensures
        crate::ical_model::run_lines(st, seq![l]) == crate::ical_model::step_line(st, l),
{
    assert(seq![l][0] == l);
    assert(seq![l].drop_first() =~= Seq::<Seq<char>>::empty());
    assert(crate::ical_model::run_lines(st, seq![l]) == crate::ical_model::run_lines(
        crate::ical_model::step_line(st, l),
        seq![l].drop_first(),
    ));
}

/// Running the serialized property lines appends the properties, in order,
/// to the innermost open container.
proof fn lemma_props_run(ps: Seq<PropSpec>, st: crate::ical_model::ParseState)
    requires
        st.err is None,
        st.done is None,
        st.buf.len() == 0,
        st.stack.len() > 0,
        forall|i: int| 0 <= i < ps.len() ==> simple_prop(#[trigger] ps[i]),
    ensures
        crate::ical_model::run_lines(st, ps.map_values(|p: PropSpec| prop_serialized(p)))
            == (crate::ical_model::ParseState {
            stack: st.stack.update(
                st.stack.len() - 1,
                IcalSpec {
                    props: st.stack.last().props + ps,
                    ..st.stack.last()
                },
            ),
            ..st
        }),
    decreases ps.len(),
{
    let top = st.stack.last();
    let lines = ps.map_values(|p: PropSpec| prop_serialized(p));
    if ps.len() == 0 {
        assert(lines.len() == 0);
        assert(top.props + ps =~= top.props);
        assert(IcalSpec { props: top.props + ps, ..top } =~= top);
        assert(st.stack.update(st.stack.len() - 1, top) =~= st.stack);
        assert(crate::ical_model::run_lines(st, lines) == st);
    } else {
        assert(lines[0] == prop_serialized(ps[0]));
        lemma_step_prop(st, ps[0]);
        let st1 = crate::ical_model::step_line(st, lines[0]);
        assert(st1.stack == crate::ical_model::push_prop_top(st.stack, ps[0]));
        assert(st1.stack.len() == st.stack.len());
        assert(st1.stack.last() == (IcalSpec { props: top.props.push(ps[0]), ..top }));
        let rest = ps.drop_first();
        assert(forall|i: int| 0 <= i < rest.len() ==> rest[i] == ps[i + 1]);
        assert forall|i: int| 0 <= i < rest.len() implies simple_prop(#[trigger] rest[i]) by {
            assert(rest[i] == ps[i + 1]);
        }
        lemma_props_run(rest, st1);
        assert(lines.drop_first() =~= rest.map_values(|p: PropSpec| prop_serialized(p)));
        assert(crate::ical_model::run_lines(st, lines) == crate::ical_model::run_lines(
            st1,
            lines.drop_first(),
        ));
        let top1 = st1.stack.last();
        assert(top1.props + rest =~= top.props + ps);
        assert(IcalSpec { props: top1.props + rest, ..top1 } =~= (IcalSpec {
            props: top.props + ps,
            ..top
        }));
        assert(st1.stack.update(st1.stack.len() - 1, (IcalSpec { props: top1.props + rest, ..top1 }))
            =~= st.stack.update(
            st.stack.len() - 1,
            IcalSpec { props: top.props + ps, ..top },
        ));
    }
}

/// Running the lines of a simple container from a state with open containers
/// appends the container as a child of the innermost; from an empty state it
/// produces the finished result.
proof fn lemma_node_run(t: IcalSpec, st: crate::ical_model::ParseState)
    requires
        simple_node(t),
        st.err is None,
        st.done is None,
        st.buf.len() == 0,
    ensures
        st.stack.len() == 0 ==> crate::ical_model::run_lines(st, crate::ical_model::ical_lines(t))
            == (crate::ical_model::ParseState { stack: Seq::empty(), done: Some(t), ..st }),
        st.stack.len() > 0 ==> crate::ical_model::run_lines(st, crate::ical_model::ical_lines(t))
            == (crate::ical_model::ParseState {
            stack: st.stack.update(
                st.stack.len() - 1,
                IcalSpec {
                    children: st.stack.last().children.push(t),
                    ..st.stack.last()
                },
            ),
            ..st
        }),
    decreases t,
{
    let node0 = IcalSpec { name: t.name, props: Seq::empty(), children: Seq::empty() };
    let lines = crate::ical_model::ical_lines(t);
    let pl = t.props.map_values(|p: PropSpec| prop_serialized(p));
    let cl = crate::ical_model::children_lines(t.children);
    assert(lines == seq![begin_line(t.name)] + pl + cl + seq![end_line(t.name)]);
    // begin
    lemma_step_begin(st, t.name);
    let st1 = crate::ical_model::step_line(st, begin_line(t.name));
    assert(st1.stack == st.stack.push(node0));
    // props
    lemma_props_run(t.props, st1);
    let st2 = crate::ical_model::run_lines(st1, pl);
    let node1 = IcalSpec { props: Seq::<PropSpec>::empty() + t.props, ..node0 };
    assert(st2.stack == st1.stack.update(st1.stack.len() - 1, node1));
    assert(st2.stack.len() == st.stack.len() + 1);
    assert(st2.stack.last() == node1);
    // children
    lemma_children_run(t.children, st2);
    let st3 = crate::ical_model::run_lines(st2, cl);
    let node2 = IcalSpec { children: node1.children + t.children, ..node1 };
    assert(st3.stack == st2.stack.update(st2.stack.len() - 1, node2));
    assert(st3.stack.len() == st.stack.len() + 1);
    assert(st3.stack.last() == node2);
    assert(node2 =~= t) by {
        assert(Seq::<PropSpec>::empty() + t.props =~= t.props);
        assert(Seq::<IcalSpec>::empty() + t.children =~= t.children);
    }
    // end
    lemma_step_end(st3, t.name);
    let st4 = crate::ical_model::step_line(st3, end_line(t.name));
    // assemble the runs
    crate::ical::lemma_run_concat(st, seq![begin_line(t.name)] + pl + cl, seq![end_line(t.name)]);
    crate::ical::lemma_run_concat(st, seq![begin_line(t.name)] + pl, cl);
    crate::ical::lemma_run_concat(st, seq![begin_line(t.name)], pl);
    lemma_run_single(st, begin_line(t.name));
    lemma_run_single(st3, end_line(t.name));
    assert(crate::ical_model::run_lines(st, lines) == st4) by {
        assert(crate::ical_model::run_lines(st, seq![begin_line(t.name)]) == st1);
        assert(crate::ical_model::run_lines(st, seq![begin_line(t.name)] + pl) == st2);
        assert(crate::ical_model::run_lines(st, seq![begin_line(t.name)] + pl + cl) == st3);
        assert(crate::ical_model::run_lines(st, (seq![begin_line(t.name)] + pl + cl) + seq![end_line(t.name)]) == crate::ical_model::run_lines(st3, seq![end_line(t.name)]));
    }
    if st.stack.len() == 0 {
        assert(st3.stack.len() == 1);
        assert(st4 == (crate::ical_model::ParseState { stack: Seq::empty(), done: Some(t), ..st3 }));
        assert(st4 =~= (crate::ical_model::ParseState { stack: Seq::empty(), done: Some(t), ..st }));
    } else {
        assert(st3.stack.len() > 1);
        let parent = st3.stack[st3.stack.len() - 2];
        assert(parent == st.stack.last());
        assert(st3.stack.drop_last() =~= st.stack);
        assert(st3.stack.drop_last().update(
            st3.stack.len() - 2,
            IcalSpec { children: parent.children.push(t), ..parent },
        ) =~= st.stack.update(
            st.stack.len() - 1,
            IcalSpec { children: st.stack.last().children.push(t), ..st.stack.last() },
        ));
    }
}

/// Running the lines of a list of simple containers appends them, in order,
/// as children of the innermost open container.
proof fn lemma_children_run(cs: Seq<IcalSpec>, st: crate::ical_model::ParseState)
    requires
        simple_children(cs),
        st.err is None,
        st.done is None,
        st.buf.len() == 0,
        st.stack.len() > 0,
    ensures
        crate::ical_model::run_lines(st, crate::ical_model::children_lines(cs))
            == (crate::ical_model::ParseState {
            stack: st.stack.update(
                st.stack.len() - 1,
                IcalSpec {
                    children: st.stack.last().children + cs,
                    ..st.stack.last()
                },
            ),
            ..st
        }),
    decreases cs,
{
    let top = st.stack.last();
    if cs.len() == 0 {
        assert(crate::ical_model::children_lines(cs).len() == 0);
        assert(top.children + cs =~= top.children);
        assert(IcalSpec { children: top.children + cs, ..top } =~= top);
        assert(st.stack.update(st.stack.len() - 1, top) =~= st.stack);
    } else {
        let rest = cs.drop_first();
        assert(crate::ical_model::children_lines(cs) == crate::ical_model::ical_lines(cs[0])
            + crate::ical_model::children_lines(rest));
        crate::ical::lemma_run_concat(
            st,
            crate::ical_model::ical_lines(cs[0]),
            crate::ical_model::children_lines(rest),
        );
        lemma_node_run(cs[0], st);
        let st1 = crate::ical_model::run_lines(st, crate::ical_model::ical_lines(cs[0]));
        assert(st1.stack.len() == st.stack.len());
        let top1 = st1.stack.last();
        assert(top1 == (IcalSpec { children: top.children.push(cs[0]), ..top }));
        lemma_children_run(rest, st1);
        assert(top1.children + rest =~= top.children + cs);
        assert(IcalSpec { children: top1.children + rest, ..top1 } =~= (IcalSpec {
            children: top.children + cs,
            ..top
        }));
        assert(st1.stack.update(st1.stack.len() - 1, (IcalSpec { children: top1.children + rest, ..top1 }))
            =~= st.stack.update(
            st.stack.len() - 1,
            IcalSpec { children: top.children + cs, ..top },
        ));
    }
}


// ---------------------------------------------------------------------------
// Splitting the serialized text back into its lines.
// ---------------------------------------------------------------------------

pub proof fn lemma_plain_concat(a: Seq<char>, b: Seq<char>)
    requires
        plain(a),
        plain(b),
    ensures
        plain(a + b),
{
    assert forall|i: int| 0 <= i < (a + b).len() implies #[trigger] (a + b)[i] != '\n' && (a
        + b)[i] != '\r' by {
        if i < a.len() {
            assert((a + b)[i] == a[i]);
        } else {
            assert((a + b)[i] == b[i - a.len()]);
        }
    }
}

/// The splitter consumes a break-free prefix into the current line.
proof fn lemma_split_lines_prefix(a: Seq<char>, b: Seq<char>, cur: Seq<char>)
    requires
        forall|i: int| 0 <= i < a.len() ==> #[trigger] a[i] != '\n',
    ensures
        crate::ical_model::split_lines_rec(a + b, cur) == crate::ical_model::split_lines_rec(
            b,
            cur + a,
        ),
    decreases a.len(),
{
    if a.len() == 0 {
        assert(a + b =~= b);
        assert(cur + a =~= cur);
    } else {
        assert((a + b)[0] == a[0]);
        assert((a + b).drop_first() =~= a.drop_first() + b);
        lemma_split_lines_prefix(a.drop_first(), b, cur.push(a[0]));
        assert(cur.push(a[0]) + a.drop_first() =~= cur + a);
    }
}

/// Joining lines and splitting again gives the lines back, as long as no
/// line holds a line break character.
pub proof fn lemma_split_unlines(ls: Seq<Seq<char>>)
    requires
        forall|i: int| 0 <= i < ls.len() ==> plain(#[trigger] ls[i]),
    ensures
        crate::ical_model::split_lines_spec(crate::ical_model::unlines(ls)) == ls,
{
    lemma_split_unlines_rec(ls);
}

proof fn lemma_split_unlines_rec(ls: Seq<Seq<char>>)
    requires
        forall|i: int| 0 <= i < ls.len() ==> plain(#[trigger] ls[i]),
    ensures
        crate::ical_model::split_lines_rec(crate::ical_model::unlines(ls), Seq::empty()) == ls,
    decreases ls.len(),
{
    if ls.len() == 0 {
        assert(crate::ical_model::unlines(ls).len() == 0);
        assert(crate::ical_model::split_lines_rec(Seq::empty(), Seq::empty())
            =~= Seq::<Seq<char>>::empty());
    } else {
        let l = ls[0];
        let rest = ls.drop_first();
        assert(crate::ical_model::unlines(ls) == l + seq!['\n'] + crate::ical_model::unlines(rest));
        assert(crate::ical_model::unlines(ls) =~= l + (seq!['\n'] + crate::ical_model::unlines(
            rest,
        )));
        assert(plain(l));
        lemma_split_lines_prefix(l, seq!['\n'] + crate::ical_model::unlines(rest), Seq::empty());
        assert(Seq::<char>::empty() + l =~= l);
        let tail = seq!['\n'] + crate::ical_model::unlines(rest);
        assert(tail[0] == '\n');
        assert(tail.drop_first() =~= crate::ical_model::unlines(rest));
        assert(crate::ical_model::split_lines_rec(tail, l) == seq![crate::ical_model::strip_cr(l)]
            + crate::ical_model::split_lines_rec(crate::ical_model::unlines(rest), Seq::empty()));
        assert(crate::ical_model::strip_cr(l) == l) by {
            if l.len() > 0 {
                assert(l[l.len() - 1] != '\r');
            }
        }
        assert forall|i: int| 0 <= i < rest.len() implies plain(#[trigger] rest[i]) by {
            assert(rest[i] == ls[i + 1]);
        }
        lemma_split_unlines_rec(rest);
        assert(seq![l] + rest =~= ls);
    }
}

/// Every line a simple container serializes to is free of line breaks.
pub proof fn lemma_ical_lines_plain(t: IcalSpec)
    requires
        simple_node(t),
    ensures
        forall|i: int|
            0 <= i < crate::ical_model::ical_lines(t).len() ==> plain(
                #[trigger] crate::ical_model::ical_lines(t)[i],
            ),
    decreases t,
{
    let lines = crate::ical_model::ical_lines(t);
    let pl = t.props.map_values(|p: PropSpec| prop_serialized(p));
    let cl = crate::ical_model::children_lines(t.children);
    assert(plain(begin_name()));
    assert(plain(end_name()));
    assert(plain(seq![':']));
    lemma_plain_concat(begin_name(), seq![':']);
    lemma_plain_concat(begin_name() + seq![':'], t.name);
    lemma_plain_concat(end_name(), seq![':']);
    lemma_plain_concat(end_name() + seq![':'], t.name);
    assert(plain(begin_line(t.name)));
    assert(plain(end_line(t.name)));
    assert forall|i: int| 0 <= i < pl.len() implies plain(#[trigger] pl[i]) by {
        assert(pl[i] == prop_serialized(t.props[i]));
        lemma_prop_serialized_plain(t.props[i]);
    }
    lemma_children_lines_plain(t.children);
    assert forall|i: int| 0 <= i < lines.len() implies plain(#[trigger] lines[i]) by {
        assert(lines == seq![begin_line(t.name)] + pl + cl + seq![end_line(t.name)]);
        if i == 0 {
            assert(lines[0] == begin_line(t.name));
        } else if i <= pl.len() {
            assert(lines[i] == pl[i - 1]);
        } else if i <= pl.len() + cl.len() {
            assert(lines[i] == cl[i - 1 - pl.len()]);
        } else {
            assert(lines[i] == end_line(t.name));
        }
    }
}

proof fn lemma_children_lines_plain(cs: Seq<IcalSpec>)
    requires
        simple_children(cs),
    ensures
        forall|i: int|
            0 <= i < crate::ical_model::children_lines(cs).len() ==> plain(
                #[trigger] crate::ical_model::children_lines(cs)[i],
            ),
    decreases cs,
{
    if cs.len() > 0 {
        let rest = cs.drop_first();
        lemma_ical_lines_plain(cs[0]);
        lemma_children_lines_plain(rest);
        let a = crate::ical_model::ical_lines(cs[0]);
        let b = crate::ical_model::children_lines(rest);
        assert forall|i: int|
            0 <= i < crate::ical_model::children_lines(cs).len() implies plain(
            #[trigger] crate::ical_model::children_lines(cs)[i],
        ) by {
            assert(crate::ical_model::children_lines(cs) == a + b);
            if i < a.len() {
                assert(crate::ical_model::children_lines(cs)[i] == a[i]);
            } else {
                assert(crate::ical_model::children_lines(cs)[i] == b[i - a.len()]);
            }
        }
    }
}

proof fn lemma_prop_serialized_plain(p: PropSpec)
    requires
        simple_prop(p),
    ensures
        plain(prop_serialized(p)),
{
    assert(plain(p.name));
    lemma_attrs_serialized_plain(p.attrs);
    lemma_plain_concat(p.name, attrs_serialized(p.attrs));
    lemma_plain_concat(p.name + attrs_serialized(p.attrs), seq![':']);
    lemma_plain_concat(p.name + attrs_serialized(p.attrs) + seq![':'], p.value);
}

proof fn lemma_attrs_serialized_plain(attrs: Seq<AttrSpec>)
    requires
        forall|i: int|
            0 <= i < attrs.len() ==> attr_key_ok((#[trigger] attrs[i]).name) && attr_val_ok(
                attrs[i].value,
            ),
    ensures
        plain(attrs_serialized(attrs)),
    decreases attrs.len(),
{
    if attrs.len() == 0 {
        assert(plain(attrs_serialized(attrs)));
    } else {
        let a = attrs[0];
        let rest = attrs.drop_first();
        assert forall|i: int|
            0 <= i < rest.len() implies attr_key_ok((#[trigger] rest[i]).name) && attr_val_ok(
            rest[i].value,
        ) by {
            assert(rest[i] == attrs[i + 1]);
        }
        lemma_attrs_serialized_plain(rest);
        assert(plain(a.name));
        assert(plain(a.value));
        lemma_plain_concat(seq![';'], a.name);
        lemma_plain_concat(seq![';'] + a.name, seq!['=']);
        lemma_plain_concat(seq![';'] + a.name + seq!['='], a.value);
        assert(plain(attr_serialized(a)));
        lemma_plain_concat(attr_serialized(a), attrs_serialized(rest));
    }
}

// ---------------------------------------------------------------------------
// The round trip.
// ---------------------------------------------------------------------------

/// Round trip: a simple container tree, serialized to wire text, split back
/// into physical lines and parsed, yields the same tree.
pub proof fn lemma_round_trip(t: IcalSpec)
    requires
        simple_node(t),
    ensures
        crate::ical_model::parse_outcome(
            crate::ical_model::split_lines_spec(crate::ical_model::ical_serialized(t)),
        ) == Ok::<IcalSpec, crate::ical_model::ParseErrSpec>(t),
{
    lemma_ical_lines_plain(t);
    lemma_split_unlines(crate::ical_model::ical_lines(t));
    lemma_node_run(t, crate::ical_model::parse_init());
    let st = crate::ical_model::run_lines(
        crate::ical_model::parse_init(),
        crate::ical_model::ical_lines(t),
    );
    assert(st.done == Some(t) && st.err is None);
}


// ---------------------------------------------------------------------------
// The quoted-colon law: a property line is split at its first colon that is
// not enclosed in double quotes.
// ---------------------------------------------------------------------------

pub open spec fn count_quotes(s: Seq<char>) -> int
    decreases s.len(),
{
    if s.len() == 0 {
        0
    } else {
        (if s[0] == '"' {
            1int
        } else {
            0int
        }) + count_quotes(s.drop_first())
    }
}

/// A colon at this position stands outside double quotes: the quotes before
/// it are balanced.
pub open spec fn unquoted_colon_at(s: Seq<char>, i: int) -> bool {
    0 <= i < s.len() && s[i] == ':' && count_quotes(s.take(i)) % 2 == 0
}

proof fn lemma_count_quotes_shift(cs: Seq<char>, j: int)
    requires
        1 <= j <= cs.len(),
    ensures
        count_quotes(cs.take(j)) == (if cs[0] == '"' {
            1int
        } else {
            0int
        }) + count_quotes(cs.drop_first().take(j - 1)),
{
    assert(cs.take(j)[0] == cs[0]);
    assert(cs.take(j).drop_first() =~= cs.drop_first().take(j - 1));
}

/// Scanning up to the first unquoted colon: everything before it goes to the
/// name, everything after it to the value.
proof fn lemma_scan_to_colon(st: ScanState, cs: Seq<char>, i: int)
    requires
        !st.read_value,
        0 <= i < cs.len(),
        cs[i] == ':',
        (count_quotes(cs.take(i)) + if st.ignore {
            1int
        } else {
            0int
        }) % 2 == 0,
        forall|j: int|
            0 <= j < i && cs[j] == ':' ==> (count_quotes(#[trigger] cs.take(j)) + if st.ignore {
                1int
            } else {
                0int
            }) % 2 == 1,
    ensures
        scan_run(st, cs).read_value,
        scan_run(st, cs).name == st.name + cs.take(i),
        scan_run(st, cs).value == st.value + cs.skip(i + 1),
    decreases i,
{
    let ig0: int = if st.ignore { 1 } else { 0 };
    if i == 0 {
        assert(cs.take(0) =~= Seq::<char>::empty());
        assert(count_quotes(cs.take(0)) == 0);
        assert(ig0 % 2 == 0);
        assert(!st.ignore);
        let st1 = scan_step(st, cs[0]);
        assert(st1 == (ScanState { read_value: true, ..st }));
        lemma_scan_value(st1, cs.drop_first());
        assert(st.name + cs.take(0) =~= st.name);
        assert(cs.drop_first() =~= cs.skip(1));
    } else {
        let c = cs[0];
        let rest = cs.drop_first();
        let st1 = scan_step(st, c);
        assert(!st1.read_value) by {
            if c == ':' {
                assert(cs.take(0) =~= Seq::<char>::empty());
                assert((count_quotes(cs.take(0)) + ig0) % 2 == 1);
                assert(st.ignore);
            }
        }
        let ig1: int = if st1.ignore { 1 } else { 0 };
        assert(rest[i - 1] == cs[i]);
        assert((count_quotes(rest.take(i - 1)) + ig1) % 2 == 0) by {
            lemma_count_quotes_shift(cs, i);
        }
        assert forall|j: int|
            0 <= j < i - 1 && rest[j] == ':' implies (count_quotes(#[trigger] rest.take(j))
            + ig1) % 2 == 1 by {
            assert(rest[j] == cs[j + 1]);
            assert(cs[j + 1] == ':');
            lemma_count_quotes_shift(cs, j + 1);
            assert((count_quotes(cs.take(j + 1)) + ig0) % 2 == 1);
        }
        lemma_scan_to_colon(st1, rest, i - 1);
        assert(st1.name == st.name.push(c) || st1.name == st.name);
        assert(scan_run(st, cs) == scan_run(st1, rest));
        assert(st1.name == st.name.push(c) && st1.value == st.value) by {
            if c == '"' {
            } else if c == ':' {
                assert(st.ignore);
            }
        }
        assert(st.name.push(c) + rest.take(i - 1) =~= st.name + cs.take(i));
        assert(rest.skip(i) =~= cs.skip(i + 1));
    }
}

/// Quoted colon: when a line's first colon outside double quotes stands at
/// position `i`, the parsed property's value is exactly the text after that
/// colon, quotes in parameter values notwithstanding.
pub proof fn lemma_quoted_colon(line: Seq<char>, i: int)
    requires
        unquoted_colon_at(line, i),
        forall|j: int| 0 <= j < i ==> !unquoted_colon_at(line, j),
    ensures
        parse_prop_spec(line) is Some,
        parse_prop_spec(line).unwrap().value == line.skip(i + 1),
        scan_run(scan_init(), line).name == line.take(i),
{
    assert forall|j: int|
        0 <= j < i && line[j] == ':' implies (count_quotes(#[trigger] line.take(j)) + 0int) % 2
        == 1 by {
        assert(!unquoted_colon_at(line, j));
    }
    lemma_scan_to_colon(scan_init(), line, i);
    let sc = scan_run(scan_init(), line);
    assert(sc.value =~= line.skip(i + 1));
    assert(sc.name =~= line.take(i));
}

// ---------------------------------------------------------------------------
// The folding law: a property value split onto continuation lines parses as
// the value given unfolded on one line.
// ---------------------------------------------------------------------------

pub open spec fn concat_parts(parts: Seq<Seq<char>>) -> Seq<char>
    decreases parts.len(),
{
    if parts.len() == 0 {
        Seq::empty()
    } else {
        parts[0] + concat_parts(parts.drop_first())
    }
}

/// The folded form: the head line, then one continuation line per part, each
/// a single space followed by the part.
pub open spec fn folded_lines(head: Seq<char>, parts: Seq<Seq<char>>) -> Seq<Seq<char>> {
    seq![head] + parts.map_values(|pt: Seq<char>| seq![' '] + pt)
}

/// Continuation lines append their text to the pending buffer.
proof fn lemma_cont_append(parts: Seq<Seq<char>>, st: crate::ical_model::ParseState)
    requires
        st.err is None,
        st.done is None,
        st.buf.len() > 0,
        forall|i: int| 0 <= i < parts.len() ==> !crate::strutil::is_blank_spec(#[trigger] parts[i]),
    ensures
        crate::ical_model::run_lines(st, parts.map_values(|pt: Seq<char>| seq![' '] + pt))
            == (crate::ical_model::ParseState { buf: st.buf + concat_parts(parts), ..st }),
    decreases parts.len(),
{
    let lines = parts.map_values(|pt: Seq<char>| seq![' '] + pt);
    if parts.len() == 0 {
        assert(st.buf + concat_parts(parts) =~= st.buf);
        assert(crate::ical_model::run_lines(st, lines) == st);
        assert((crate::ical_model::ParseState { buf: st.buf + concat_parts(parts), ..st }) =~= st);
    } else {
        let l = lines[0];
        assert(l == seq![' '] + parts[0]);
        assert(!crate::strutil::is_blank_spec(l)) by {
            let w = choose|w: int|
                0 <= w < parts[0].len() && !crate::strutil::is_space(parts[0][w]);
            assert(l[w + 1] == parts[0][w]);
        }
        assert(l[0] == ' ');
        let st1 = crate::ical_model::step_line(st, l);
        assert(l.drop_first() =~= parts[0]);
        assert(st1 == (crate::ical_model::ParseState { buf: st.buf + parts[0], ..st }));
        let rest = parts.drop_first();
        assert forall|i: int|
            0 <= i < rest.len() implies !crate::strutil::is_blank_spec(#[trigger] rest[i]) by {
            assert(rest[i] == parts[i + 1]);
        }
        lemma_cont_append(rest, st1);
        assert(lines.drop_first() =~= rest.map_values(|pt: Seq<char>| seq![' '] + pt));
        assert(crate::ical_model::run_lines(st, lines) == crate::ical_model::run_lines(
            st1,
            lines.drop_first(),
        ));
        assert((st.buf + parts[0]) + concat_parts(rest) =~= st.buf + concat_parts(parts));
    }
}

/// Folding: inside an open container, a simple property whose value is split
/// across its line and one or more single-space continuation lines parses
/// exactly as the same property given unfolded on one line, once the next
/// ordinary line arrives. The next line must not be blank and must not start
/// with whitespace, since a blank line would only postpone the fold and a
/// whitespace line would extend it.
pub proof fn lemma_folding(
    p: PropSpec,
    v1: Seq<char>,
    parts: Seq<Seq<char>>,
    st: crate::ical_model::ParseState,
    next: Seq<char>,
)
    requires
        simple_prop(p),
        plain(v1),
        p.value == v1 + concat_parts(parts),
        forall|i: int| 0 <= i < parts.len() ==> !crate::strutil::is_blank_spec(#[trigger] parts[i]),
        st.err is None,
        st.done is None,
        st.buf.len() == 0,
        st.stack.len() > 0,
        next.len() > 0,
        !crate::strutil::is_space(next[0]),
    ensures
        crate::ical_model::run_lines(
            st,
            folded_lines(prop_serialized(PropSpec { value: v1, ..p }), parts).push(next),
        ) == crate::ical_model::run_lines(
            st,
            seq![prop_serialized(p)].push(next),
        ),
{
    let p1 = PropSpec { value: v1, ..p };
    assert(simple_prop(p1));
    // the unfolded run: push p, then handle `next` from a buffer-free state
    lemma_step_prop(st, p);
    let stu = crate::ical_model::step_line(st, prop_serialized(p));
    assert(stu.stack == crate::ical_model::push_prop_top(st.stack, p));
    assert(seq![prop_serialized(p)].push(next) =~= seq![prop_serialized(p)] + seq![next]);
    crate::ical::lemma_run_concat(st, seq![prop_serialized(p)], seq![next]);
    lemma_run_single(st, prop_serialized(p));
    lemma_run_single(stu, next);
    // the folded run: push p1, pop it on the first continuation, accumulate
    lemma_step_prop(st, p1);
    let st1 = crate::ical_model::step_line(st, prop_serialized(p1));
    assert(st1.stack == crate::ical_model::push_prop_top(st.stack, p1));
    let all = folded_lines(prop_serialized(p1), parts).push(next);
    assert(all =~= (seq![prop_serialized(p1)] + parts.map_values(|pt: Seq<char>| seq![' '] + pt))
        + seq![next]);
    crate::ical::lemma_run_concat(
        st,
        seq![prop_serialized(p1)] + parts.map_values(|pt: Seq<char>| seq![' '] + pt),
        seq![next],
    );
    crate::ical::lemma_run_concat(
        st,
        seq![prop_serialized(p1)],
        parts.map_values(|pt: Seq<char>| seq![' '] + pt),
    );
    lemma_run_single(st, prop_serialized(p1));
    if parts.len() == 0 {
        assert(p1 =~= p) by {
            assert(v1 + concat_parts(parts) =~= v1);
        }
        assert(parts.map_values(|pt: Seq<char>| seq![' '] + pt).len() == 0);
        lemma_run_single(st1, next);
    } else {
        // first continuation line pops the committed property back into the buffer
        let lines = parts.map_values(|pt: Seq<char>| seq![' '] + pt);
        let l0 = lines[0];
        assert(l0 == seq![' '] + parts[0]);
        assert(!crate::strutil::is_blank_spec(l0)) by {
            let w = choose|w: int|
                0 <= w < parts[0].len() && !crate::strutil::is_space(parts[0][w]);
            assert(l0[w + 1] == parts[0][w]);
        }
        assert(l0[0] == ' ');
        let top1 = st1.stack.last();
        assert(top1.props.len() > 0 && top1.props.last() == p1);
        let st2 = crate::ical_model::step_line(st1, l0);
        assert(l0.drop_first() =~= parts[0]);
        assert(st2.stack =~= st.stack) by {
            let top = st.stack.last();
            assert(crate::ical_model::push_prop_top(st.stack, p1) == st.stack.update(
                st.stack.len() - 1,
                IcalSpec { props: top.props.push(p1), ..top },
            ));
            assert(top.props.push(p1).drop_last() =~= top.props);
            assert((IcalSpec { props: top.props.push(p1).drop_last(), ..top }) =~= top);
        }
        assert(st2.buf == prop_serialized(p1) + parts[0]);
        let rest = parts.drop_first();
        assert forall|i: int|
            0 <= i < rest.len() implies !crate::strutil::is_blank_spec(#[trigger] rest[i]) by {
            assert(rest[i] == parts[i + 1]);
        }
        assert(st2.buf.len() > 0);
        lemma_cont_append(rest, st2);
        assert(lines.drop_first() =~= rest.map_values(|pt: Seq<char>| seq![' '] + pt));
        let st3 = crate::ical_model::run_lines(st2, lines.drop_first());
        assert(st3.stack =~= st.stack);
        assert(st3.buf =~= prop_serialized(p)) by {
            assert(st3.buf == (prop_serialized(p1) + parts[0]) + concat_parts(rest));
            assert(prop_serialized(p) =~= prop_serialized(p1) + concat_parts(parts)) by {
                assert(p.name + attrs_serialized(p.attrs) + seq![':'] + (v1 + concat_parts(parts))
                    =~= (p.name + attrs_serialized(p.attrs) + seq![':'] + v1) + concat_parts(
                    parts,
                ));
            }
            assert(parts[0] + concat_parts(rest) =~= concat_parts(parts));
        }
        assert(crate::ical_model::run_lines(st1, lines) == st3) by {
            assert(crate::ical_model::run_lines(st1, lines) == crate::ical_model::run_lines(
                crate::ical_model::step_line(st1, lines[0]),
                lines.drop_first(),
            ));
        }
        lemma_run_single(st3, next);
        lemma_run_single(stu, next);
        // the next line first flushes the buffer, landing in the unfolded state
        lemma_prop_round_trip(p);
        assert(crate::ical_model::step_line(st3, next) == crate::ical_model::step_line(stu, next))
            by {
            assert(!crate::strutil::is_blank_spec(next)) by {
                assert(!crate::strutil::is_space(next[0]));
            }
            let stf = crate::ical_model::flush_buf(st3);
            assert(stf.err is None);
            assert(stf.stack == crate::ical_model::push_prop_top(st.stack, p));
            assert(stf.buf =~= Seq::<char>::empty());
            assert(stf =~= stu);
            assert(crate::ical_model::flush_buf(stu) == stu);
        }
    }
}


/// Folding, over a whole input: wherever the lines so far have left the
/// parser inside an open container with no pending fold, an input carrying
/// the property folded, then an ordinary line, then anything, parses exactly
/// as the input carrying the property unfolded.
pub proof fn lemma_folding_in_input(
    p: PropSpec,
    v1: Seq<char>,
    parts: Seq<Seq<char>>,
    pre: Seq<Seq<char>>,
    next: Seq<char>,
    post: Seq<Seq<char>>,
)
    requires
        simple_prop(p),
        plain(v1),
        p.value == v1 + concat_parts(parts),
        forall|i: int| 0 <= i < parts.len() ==> !crate::strutil::is_blank_spec(#[trigger] parts[i]),
        ({
            let st = crate::ical_model::run_lines(crate::ical_model::parse_init(), pre);
            st.err is None && st.done is None && st.buf.len() == 0 && st.stack.len() > 0
        }),
        next.len() > 0,
        !crate::strutil::is_space(next[0]),
    ensures
        crate::ical_model::parse_outcome(
            pre + folded_lines(prop_serialized(PropSpec { value: v1, ..p }), parts).push(next)
                + post,
        ) == crate::ical_model::parse_outcome(pre + seq![prop_serialized(p)].push(next) + post),
{
    let st = crate::ical_model::run_lines(crate::ical_model::parse_init(), pre);
    lemma_folding(p, v1, parts, st, next);
    let f = folded_lines(prop_serialized(PropSpec { value: v1, ..p }), parts).push(next);
    let u = seq![prop_serialized(p)].push(next);
    assert(pre + f + post =~= pre + (f + post));
    assert(pre + u + post =~= pre + (u + post));
    crate::ical::lemma_run_concat(crate::ical_model::parse_init(), pre, f + post);
    crate::ical::lemma_run_concat(crate::ical_model::parse_init(), pre, u + post);
    crate::ical::lemma_run_concat(st, f, post);
    crate::ical::lemma_run_concat(st, u, post);
}

} // verus!
