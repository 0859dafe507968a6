use vstd::prelude::*;

verus! {

/// The PROPFIND body asking for the current-user principal.
pub fn user_principal_request() -> &'static str {
    "\n    <d:propfind xmlns:d=\"DAV:\">\n       <d:prop>\n           <d:current-user-principal />\n       </d:prop>\n    </d:propfind>\n"
}

/// The PROPFIND body asking for the calendar home set.
pub fn homeset_request() -> &'static str {
    "\n    <d:propfind xmlns:d=\"DAV:\" xmlns:c=\"urn:ietf:params:xml:ns:caldav\" >\n      <d:self/>\n      <d:prop>\n        <c:calendar-home-set />\n      </d:prop>\n    </d:propfind>\n"
}

/// The PROPFIND body listing calendars with their display properties.
pub fn calendars_request() -> &'static str {
    "\n<d:propfind xmlns:d=\"DAV:\" xmlns:c=\"urn:ietf:params:xml:ns:caldav\" >\n    <d:prop>\n        <d:displayname />\n        <d:resourcetype />\n        <d:current-user-privilege-set/>\n        <calendar-color xmlns=\"http://apple.com/ns/ical/\" />\n        <c:supported-calendar-component-set />\n    </d:prop>\n</d:propfind>\n"
}

/// The calendar-query body that lists calendars, used when the listing
/// PROPFIND itself fails.
pub fn calendars_query() -> &'static str {
    "\n<c:calendar-query xmlns:d=\"DAV:\" xmlns:c=\"urn:ietf:params:xml:ns:caldav\">\n    <d:prop>\n        <d:getetag />\n        <d:displayname />\n        <d:current-user-privilege-set/>\n        <calendar-color xmlns=\"http://apple.com/ns/ical/\" />\n        <d:resourcetype />\n        <c:supported-calendar-component-set />\n    </d:prop>\n    <c:filter>\n        <c:comp-filter name=\"VCALENDAR\" />\n    </c:filter>\n</c:calendar-query>\n"
}

pub open spec fn calendar_events_request_spec() -> Seq<char> {
    "\n    <c:calendar-query xmlns:d=\"DAV:\" xmlns:c=\"urn:ietf:params:xml:ns:caldav\">\n        <d:prop>\n            <d:getetag />\n            <c:calendar-data />\n        </d:prop>\n        <c:filter>\n            <c:comp-filter name=\"VCALENDAR\">\n                <c:comp-filter name=\"VEVENT\" />\n            </c:comp-filter>\n        </c:filter>\n    </c:calendar-query>\n"@
}

/// The calendar-query body fetching event data with entity tags.
pub fn calendar_events_request() -> (r: &'static str)
    ensures
        r@ == calendar_events_request_spec(),
{
    "\n    <c:calendar-query xmlns:d=\"DAV:\" xmlns:c=\"urn:ietf:params:xml:ns:caldav\">\n        <d:prop>\n            <d:getetag />\n            <c:calendar-data />\n        </d:prop>\n        <c:filter>\n            <c:comp-filter name=\"VCALENDAR\">\n                <c:comp-filter name=\"VEVENT\" />\n            </c:comp-filter>\n        </c:filter>\n    </c:calendar-query>\n"
}

/// The body that creates a calendar collection: a MKCOL request setting the
/// display name, the color, and event support.
pub fn build_create_calendar_xml(name: String, color: String) -> (r: String)
    ensures
        r@ == "\n    <x0:mkcol xmlns:x0=\"DAV:\">\n\t<x0:set>\n\t\t<x0:prop>\n\t\t\t<x0:resourcetype>\n\t\t\t\t<x0:collection/>\n\t\t\t\t<x1:calendar xmlns:x1=\"urn:ietf:params:xml:ns:caldav\"/>\n\t\t\t\t</x0:resourcetype>\n\t\t\t\t<x0:displayname>"@
            + name@
            + "</x0:displayname>\n\t\t\t\t<x6:calendar-color\n\t\t\t\t\txmlns:x6=\"http://apple.com/ns/ical/\">"@
            + color@
            + "\n\t\t\t\t</x6:calendar-color>\n\t\t\t\t<x4:calendar-enabled\n\t\t\t\t\txmlns:x4=\"http://owncloud.org/ns\">1\n\t\t\t\t</x4:calendar-enabled>\n\t\t\t\t<x1:supported-calendar-component-set\n\t\t\t\t\txmlns:x1=\"urn:ietf:params:xml:ns:caldav\">\n\t\t\t\t\t<x1:comp name=\"VEVENT\"/>\n\t\t\t\t</x1:supported-calendar-component-set>\n\t\t\t</x0:prop>\n\t\t</x0:set>\n\t</x0:mkcol>\n        "@,
{
    let mut out =
        "\n    <x0:mkcol xmlns:x0=\"DAV:\">\n\t<x0:set>\n\t\t<x0:prop>\n\t\t\t<x0:resourcetype>\n\t\t\t\t<x0:collection/>\n\t\t\t\t<x1:calendar xmlns:x1=\"urn:ietf:params:xml:ns:caldav\"/>\n\t\t\t\t</x0:resourcetype>\n\t\t\t\t<x0:displayname>".to_owned();
    out.append(name.as_str());
    out.append(
        "</x0:displayname>\n\t\t\t\t<x6:calendar-color\n\t\t\t\t\txmlns:x6=\"http://apple.com/ns/ical/\">",
    );
    out.append(color.as_str());
    out.append(
        "\n\t\t\t\t</x6:calendar-color>\n\t\t\t\t<x4:calendar-enabled\n\t\t\t\t\txmlns:x4=\"http://owncloud.org/ns\">1\n\t\t\t\t</x4:calendar-enabled>\n\t\t\t\t<x1:supported-calendar-component-set\n\t\t\t\t\txmlns:x1=\"urn:ietf:params:xml:ns:caldav\">\n\t\t\t\t\t<x1:comp name=\"VEVENT\"/>\n\t\t\t\t</x1:supported-calendar-component-set>\n\t\t\t</x0:prop>\n\t\t</x0:set>\n\t</x0:mkcol>\n        ",
    );
    out
}

/// The start of the queried range: the caller's bound, or the all-time
/// default.
pub open spec fn range_bound(b: Option<String>, default: Seq<char>) -> Seq<char> {
    match b {
        Some(v) => v@,
        None => default,
    }
}

/// The calendar-query body fetching events within a time range, either
/// asking the server to expand recurrences or only to limit the recurrence
/// set to the range.
pub open spec fn calendar_request_spec(start: Option<String>, end: Option<String>, expanded: bool) -> Seq<char> {
    let s = range_bound(start, "20000103T000000Z"@);
    let e = range_bound(end, "21000105T000000Z"@);
    let data_clause = if expanded {
        "<c:calendar-data>\n          <c:expand start=\""@ + s + "\" end=\""@ + e + "\"/>\n       </c:calendar-data>"@
    } else {
        "<c:calendar-data>\n          <c:limit-recurrence-set start=\""@ + s + "\" end=\""@ + e
            + "\"/>\n       </c:calendar-data>"@
    };
    let range_clause = "<c:comp-filter name=\"VEVENT\">\n                   <c:time-range start=\""@
        + s + "\" end=\""@ + e + "\"/>\n               </c:comp-filter>"@;
    "\n    <c:calendar-query xmlns:d=\"DAV:\" xmlns:c=\"urn:ietf:params:xml:ns:caldav\">\n        <d:prop>\n            <d:getetag />\n            "@
        + data_clause
        + "\n        </d:prop>\n        <c:filter>\n            <c:comp-filter name=\"VCALENDAR\">\n                "@
        + range_clause + "\n            </c:comp-filter>\n        </c:filter>\n    </c:calendar-query>\n   "@
}

/// The body of a component query: the plain events request, unless a time
/// range or expansion is asked for, in which case the range-bounded body is
/// built.
pub fn component_query_body(start: Option<String>, end: Option<String>, expanded: bool) -> (r:
    String)
    ensures
        (expanded || start is Some || end is Some) ==> r@ == calendar_request_spec(
            start,
            end,
            expanded,
        ),
        !(expanded || start is Some || end is Some) ==> r@ == calendar_events_request_spec(),
{
    if expanded || start.is_some() || end.is_some() {
        build_calendar_request_string(start, end, expanded)
    } else {
        calendar_events_request().to_owned()
    }
}

pub fn build_calendar_request_string(start: Option<String>, end: Option<String>, expanded: bool) -> (r: String)
    ensures
        r@ == calendar_request_spec(start, end, expanded),
{
    let s: String = match &start {
        Some(v) => v.clone(),
        None => "20000103T000000Z".to_owned(),
    };
    let e: String = match &end {
        Some(v) => v.clone(),
        None => "21000105T000000Z".to_owned(),
    };
    let mut data_clause: String;
    if expanded {
        data_clause = "<c:calendar-data>\n          <c:expand start=\"".to_owned();
        data_clause.append(s.as_str());
        data_clause.append("\" end=\"");
        data_clause.append(e.as_str());
        data_clause.append("\"/>\n       </c:calendar-data>");
    } else {
        data_clause = "<c:calendar-data>\n          <c:limit-recurrence-set start=\"".to_owned();
        data_clause.append(s.as_str());
        data_clause.append("\" end=\"");
        data_clause.append(e.as_str());
        data_clause.append("\"/>\n       </c:calendar-data>");
    }
    let mut range_clause =
        "<c:comp-filter name=\"VEVENT\">\n                   <c:time-range start=\"".to_owned();
    range_clause.append(s.as_str());
    range_clause.append("\" end=\"");
    range_clause.append(e.as_str());
    range_clause.append("\"/>\n               </c:comp-filter>");
    let mut out =
        "\n    <c:calendar-query xmlns:d=\"DAV:\" xmlns:c=\"urn:ietf:params:xml:ns:caldav\">\n        <d:prop>\n            <d:getetag />\n            ".to_owned();
    out.append(data_clause.as_str());
    out.append(
        "\n        </d:prop>\n        <c:filter>\n            <c:comp-filter name=\"VCALENDAR\">\n                ",
    );
    out.append(range_clause.as_str());
    out.append("\n            </c:comp-filter>\n        </c:filter>\n    </c:calendar-query>\n   ");
    out
}

} // verus!
