use vstd::prelude::*;

use crate::strutil::is_blank_spec;
use crate::strutil::trim_spec;

verus! {

// ---------------------------------------------------------------------------
// Mathematical model of the wire format: a property is a name, a value and a
// list of key/value attributes; a container is a name, a list of properties
// and a list of child containers.
// ---------------------------------------------------------------------------

#[verifier::ext_equal]
pub ghost struct AttrSpec {
    pub name: Seq<char>,
    pub value: Seq<char>,
}

#[verifier::ext_equal]
pub ghost struct PropSpec {
    pub name: Seq<char>,
    pub value: Seq<char>,
    pub attrs: Seq<AttrSpec>,
}

#[verifier::ext_equal]
pub ghost struct IcalSpec {
    pub name: Seq<char>,
    pub props: Seq<PropSpec>,
    pub children: Seq<IcalSpec>,
}

pub open spec fn begin_name() -> Seq<char> {
    seq!['B', 'E', 'G', 'I', 'N']
}

pub open spec fn end_name() -> Seq<char> {
    seq!['E', 'N', 'D']
}

// ---------------------------------------------------------------------------
// Serialization.
// ---------------------------------------------------------------------------

pub open spec fn attr_serialized(a: AttrSpec) -> Seq<char> {
    seq![';'] + a.name + seq!['='] + a.value
}

pub open spec fn attrs_serialized(attrs: Seq<AttrSpec>) -> Seq<char>
    decreases attrs.len(),
{
    if attrs.len() == 0 {
        Seq::empty()
    } else {
        attr_serialized(attrs[0]) + attrs_serialized(attrs.drop_first())
    }
}

/// One logical property line: `name[;k=v...]:value`.
pub open spec fn prop_serialized(p: PropSpec) -> Seq<char> {
    p.name + attrs_serialized(p.attrs) + seq![':'] + p.value
}

pub open spec fn begin_line(name: Seq<char>) -> Seq<char> {
    begin_name() + seq![':'] + name
}

pub open spec fn end_line(name: Seq<char>) -> Seq<char> {
    end_name() + seq![':'] + name
}

/// The logical lines a container serializes to.
pub open spec fn ical_lines(n: IcalSpec) -> Seq<Seq<char>>
    decreases n,
{
    seq![begin_line(n.name)] + n.props.map_values(|p: PropSpec| prop_serialized(p))
        + children_lines(n.children) + seq![end_line(n.name)]
}

pub open spec fn children_lines(cs: Seq<IcalSpec>) -> Seq<Seq<char>>
    decreases cs,
{
    if cs.len() == 0 {
        Seq::empty()
    } else {
        ical_lines(cs[0]) + children_lines(cs.drop_first())
    }
}

/// Joins lines with a newline after each one.
pub open spec fn unlines(ls: Seq<Seq<char>>) -> Seq<char>
    decreases ls.len(),
{
    if ls.len() == 0 {
        Seq::empty()
    } else {
        ls[0] + seq!['\n'] + unlines(ls.drop_first())
    }
}

/// The full serialized text of a container.
pub open spec fn ical_serialized(n: IcalSpec) -> Seq<char> {
    unlines(ical_lines(n))
}

// ---------------------------------------------------------------------------
// Splitting input text into physical lines, as std's line iterator does:
// split at every newline, and drop one carriage return at the end of a line
// that a newline terminated; a final line without a newline is kept as is.
// ---------------------------------------------------------------------------

pub open spec fn strip_cr(l: Seq<char>) -> Seq<char> {
    if l.len() > 0 && l[l.len() - 1] == '\r' {
        l.drop_last()
    } else {
        l
    }
}

pub open spec fn split_lines_rec(s: Seq<char>, cur: Seq<char>) -> Seq<Seq<char>>
    decreases s.len(),
{
    if s.len() == 0 {
        if cur.len() == 0 {
            Seq::empty()
        } else {
            seq![cur]
        }
    } else if s[0] == '\n' {
        seq![strip_cr(cur)] + split_lines_rec(s.drop_first(), Seq::empty())
    } else {
        split_lines_rec(s.drop_first(), cur.push(s[0]))
    }
}

pub open spec fn split_lines_spec(s: Seq<char>) -> Seq<Seq<char>> {
    split_lines_rec(s, Seq::empty())
}

// ---------------------------------------------------------------------------
// Property-line parsing: scan for the first colon that is not enclosed in
// double quotes, then split the name segment on ';' into the name and the
// attributes.
// ---------------------------------------------------------------------------

#[verifier::ext_equal]
pub ghost struct ScanState {
    pub name: Seq<char>,
    pub value: Seq<char>,
    pub read_value: bool,
    pub ignore: bool,
}

pub open spec fn scan_init() -> ScanState {
    ScanState { name: Seq::empty(), value: Seq::empty(), read_value: false, ignore: false }
}

pub open spec fn scan_push(s: ScanState, c: char) -> ScanState {
    if s.read_value {
        ScanState { value: s.value.push(c), ..s }
    } else {
        ScanState { name: s.name.push(c), ..s }
    }
}

pub open spec fn scan_step(s: ScanState, c: char) -> ScanState {
    if c == '"' {
        scan_push(ScanState { ignore: !s.ignore, ..s }, c)
    } else if c == ':' && !s.ignore && !s.read_value {
        ScanState { read_value: true, ..s }
    } else {
        scan_push(s, c)
    }
}

pub open spec fn scan_run(s: ScanState, cs: Seq<char>) -> ScanState
    decreases cs.len(),
{
    if cs.len() == 0 {
        s
    } else {
        scan_run(scan_step(s, cs[0]), cs.drop_first())
    }
}

/// Index of the first occurrence of a character, or the length if absent.
pub open spec fn find_char(s: Seq<char>, c: char) -> int
    decreases s.len(),
{
    if s.len() == 0 {
        0
    } else if s[0] == c {
        0
    } else {
        1 + find_char(s.drop_first(), c)
    }
}

/// Splits on ';'; always yields at least one piece.
pub open spec fn split_semi_rec(s: Seq<char>, cur: Seq<char>) -> Seq<Seq<char>>
    decreases s.len(),
{
    if s.len() == 0 {
        seq![cur]
    } else if s[0] == ';' {
        seq![cur] + split_semi_rec(s.drop_first(), Seq::empty())
    } else {
        split_semi_rec(s.drop_first(), cur.push(s[0]))
    }
}

pub open spec fn split_semi(s: Seq<char>) -> Seq<Seq<char>> {
    split_semi_rec(s, Seq::empty())
}

/// A `key=value` piece becomes an attribute, split at the first '='; a piece
/// without '=' is dropped.
pub open spec fn attr_of_piece(piece: Seq<char>) -> Option<AttrSpec> {
    let i = find_char(piece, '=');
    if i < piece.len() {
        Some(AttrSpec { name: piece.subrange(0, i), value: piece.subrange(i + 1, piece.len() as int) })
    } else {
        None
    }
}

/// Index of the first child container with the given name, or the length if
/// absent.
pub open spec fn find_child(cs: Seq<IcalSpec>, name: Seq<char>) -> int
    decreases cs.len(),
{
    if cs.len() == 0 {
        0
    } else if cs[0].name == name {
        0
    } else {
        1 + find_child(cs.drop_first(), name)
    }
}

/// Index of the first property with the given name, or the length if absent.
pub open spec fn find_prop(ps: Seq<PropSpec>, name: Seq<char>) -> int
    decreases ps.len(),
{
    if ps.len() == 0 {
        0
    } else if ps[0].name == name {
        0
    } else {
        1 + find_prop(ps.drop_first(), name)
    }
}

/// Index of the first attribute with the given key, or the length if absent.
pub open spec fn find_attr(attrs: Seq<AttrSpec>, key: Seq<char>) -> int
    decreases attrs.len(),
{
    if attrs.len() == 0 {
        0
    } else if attrs[0].name == key {
        0
    } else {
        1 + find_attr(attrs.drop_first(), key)
    }
}

/// Map semantics over an ordered list: a later binding for an existing key
/// replaces the value in place, a new key is appended.
pub open spec fn attrs_insert(attrs: Seq<AttrSpec>, a: AttrSpec) -> Seq<AttrSpec> {
    let i = find_attr(attrs, a.name);
    if i < attrs.len() {
        attrs.update(i, a)
    } else {
        attrs.push(a)
    }
}

pub open spec fn attrs_of_pieces(pieces: Seq<Seq<char>>, acc: Seq<AttrSpec>) -> Seq<AttrSpec>
    decreases pieces.len(),
{
    if pieces.len() == 0 {
        acc
    } else {
        let acc2 = match attr_of_piece(pieces[0]) {
            Some(a) => attrs_insert(acc, a),
            None => acc,
        };
        attrs_of_pieces(pieces.drop_first(), acc2)
    }
}

/// Parsing one logical line into a property. `None` when the line has no
/// colon outside double quotes.
pub open spec fn parse_prop_spec(line: Seq<char>) -> Option<PropSpec> {
    let sc = scan_run(scan_init(), line);
    if !sc.read_value {
        None
    } else {
        let pieces = split_semi(sc.name);
        Some(
            PropSpec {
                name: trim_spec(pieces[0]),
                value: sc.value,
                attrs: attrs_of_pieces(pieces.drop_first(), Seq::empty()),
            },
        )
    }
}

// ---------------------------------------------------------------------------
// The container parser, as a state machine over logical lines: a stack of
// open containers, a buffer of pending folded text, and a terminal result.
// ---------------------------------------------------------------------------

pub ghost enum ParseErrSpec {
    /// A flushed logical line had no colon outside quotes; carries the line.
    BadProp(Seq<char>),
    /// End of input with a container still open; carries its name.
    MissingEnd(Seq<char>),
    /// No container was ever opened.
    NoContainer,
}

#[verifier::ext_equal]
pub ghost struct ParseState {
    pub stack: Seq<IcalSpec>,
    pub buf: Seq<char>,
    pub done: Option<IcalSpec>,
    pub err: Option<ParseErrSpec>,
}

pub open spec fn parse_init() -> ParseState {
    ParseState { stack: Seq::empty(), buf: Seq::empty(), done: None, err: None }
}

/// Appends a property to the innermost open container; dropped when none is
/// open.
pub open spec fn push_prop_top(stack: Seq<IcalSpec>, p: PropSpec) -> Seq<IcalSpec> {
    if stack.len() == 0 {
        stack
    } else {
        let top = stack.last();
        stack.update(stack.len() - 1, IcalSpec { props: top.props.push(p), ..top })
    }
}

/// Parses and attaches the pending buffer, if any.
pub open spec fn flush_buf(st: ParseState) -> ParseState {
    if st.buf.len() == 0 {
        st
    } else {
        match parse_prop_spec(st.buf) {
            None => ParseState { err: Some(ParseErrSpec::BadProp(st.buf)), ..st },
            Some(p) => ParseState { stack: push_prop_top(st.stack, p), buf: Seq::empty(), ..st },
        }
    }
}

/// What one directly-parsed property does to the open containers.
pub open spec fn handle_prop(st: ParseState, p: PropSpec) -> ParseState {
    if st.stack.len() == 0 {
        if p.name == begin_name() {
            ParseState {
                stack: seq![
                    IcalSpec { name: trim_spec(p.value), props: Seq::empty(), children: Seq::empty() },
                ],
                ..st
            }
        } else {
            st
        }
    } else if p.name == begin_name() {
        ParseState {
            stack: st.stack.push(
                IcalSpec { name: trim_spec(p.value), props: Seq::empty(), children: Seq::empty() },
            ),
            ..st
        }
    } else if p.name == end_name() && p.value == trim_spec(st.stack.last().name) {
        let top = st.stack.last();
        if st.stack.len() == 1 {
            ParseState { stack: Seq::empty(), done: Some(top), ..st }
        } else {
            let parent = st.stack[st.stack.len() - 2];
            ParseState {
                stack: st.stack.drop_last().update(
                    st.stack.len() - 2,
                    IcalSpec { children: parent.children.push(top), ..parent },
                ),
                ..st
            }
        }
    } else {
        ParseState { stack: push_prop_top(st.stack, p), ..st }
    }
}

/// One physical line's effect on the parser state.
pub open spec fn step_line(st: ParseState, line: Seq<char>) -> ParseState {
    if st.err is Some || st.done is Some {
        st
    } else if is_blank_spec(line) {
        st
    } else if line[0] == ' ' || line[0] == '\t' {
        let rest = line.drop_first();
        if st.buf.len() == 0 {
            if st.stack.len() > 0 && st.stack.last().props.len() > 0 {
                let top = st.stack.last();
                ParseState {
                    stack: st.stack.update(
                        st.stack.len() - 1,
                        IcalSpec { props: top.props.drop_last(), ..top },
                    ),
                    buf: prop_serialized(top.props.last()) + rest,
                    ..st
                }
            } else {
                ParseState { buf: rest, ..st }
            }
        } else {
            ParseState { buf: st.buf + rest, ..st }
        }
    } else if !line.contains(':') && st.buf.len() == 0 {
        ParseState { buf: line, ..st }
    } else {
        let st1 = flush_buf(st);
        if st1.err is Some {
            st1
        } else if !line.contains(':') {
            ParseState { buf: line, ..st1 }
        } else {
            match parse_prop_spec(line) {
                None => ParseState { err: Some(ParseErrSpec::BadProp(line)), ..st1 },
                Some(p) => handle_prop(st1, p),
            }
        }
    }
}

pub open spec fn run_lines(st: ParseState, lines: Seq<Seq<char>>) -> ParseState
    decreases lines.len(),
{
    if lines.len() == 0 {
        st
    } else {
        run_lines(step_line(st, lines[0]), lines.drop_first())
    }
}

/// The result of parsing a full sequence of physical lines.
pub open spec fn parse_outcome(lines: Seq<Seq<char>>) -> Result<IcalSpec, ParseErrSpec> {
    let st = run_lines(parse_init(), lines);
    match st.err {
        Some(e) => Err(e),
        None => match st.done {
            Some(n) => Ok(n),
            None => if st.stack.len() > 0 {
                Err(ParseErrSpec::MissingEnd(st.stack.last().name))
            } else {
                Err(ParseErrSpec::NoContainer)
            },
        },
    }
}

/// The message the parser reports for each failure.
pub open spec fn err_message_spec(e: ParseErrSpec) -> Seq<char> {
    match e {
        ParseErrSpec::BadProp(raw) => "Invalid property: "@ + raw,
        ParseErrSpec::MissingEnd(name) => "Missing END:"@ + name,
        ParseErrSpec::NoContainer => "Invalid input"@,
    }
}

} // verus!
