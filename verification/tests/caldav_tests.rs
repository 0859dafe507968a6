use minicaldav::api::Event;
use minicaldav::api::Property as ApiProperty;
use minicaldav::api::bump_sequences;
use minicaldav::api::parse_batch;
use minicaldav::api::parse_batch_todos;
use minicaldav::api::parse_i64;
use minicaldav::api::i64_to_dec;
use minicaldav::caldav::fallback_url;
use minicaldav::calendar::Calendar;
use minicaldav::caldav::home_set_url_from;
use minicaldav::caldav::parse_calendar_refs;
use minicaldav::caldav::parse_component_responses;
use minicaldav::caldav::principal_url_from;
use minicaldav::caldav::propfind_path_text;
use minicaldav::calendar::CalendarRef;
use minicaldav::component::Component;
use minicaldav::component::ComponentResponse;
use minicaldav::credentials::Credentials;
use minicaldav::errors::MiniCaldavError;
use minicaldav::ical::Attr;
use minicaldav::ical::Ical;
use minicaldav::ical::LineIterator;
use minicaldav::ical::Property;
use minicaldav::vcalendar_props::VCalendarProps;
use minicaldav::xml::Element;
use minicaldav::xml_templates::build_calendar_request_string;
use minicaldav::xml_templates::build_create_calendar_xml;

fn el(name: &str, text: &str, children: Vec<Element>) -> Element {
    Element {
        name: name.to_string(),
        text: text.to_string(),
        attributes: vec![],
        children,
    }
}

fn el_attrs(name: &str, attrs: Vec<(&str, &str)>, children: Vec<Element>) -> Element {
    Element {
        name: name.to_string(),
        text: String::new(),
        attributes: attrs
            .into_iter()
            .map(|(k, v)| Attr {
                name: k.to_string(),
                value: v.to_string(),
            })
            .collect(),
        children,
    }
}

/// One multistatus entry as a listing produces it.
fn calendar_entry(href: &str, display: &str, resourcetypes: Vec<&str>, comps: Vec<&str>) -> Element {
    let resourcetype = el(
        "resourcetype",
        "",
        resourcetypes.iter().map(|t| el(t, "", vec![])).collect(),
    );
    let comp_set = el(
        "supported-calendar-component-set",
        "",
        comps
            .iter()
            .map(|c| el_attrs("comp", vec![("name", c)], vec![]))
            .collect(),
    );
    let privileges = el(
        "current-user-privilege-set",
        "",
        vec![el("privilege", "", vec![el("write", "", vec![]), el("read", "", vec![])])],
    );
    el(
        "response",
        "",
        vec![
            el("href", href, vec![]),
            el(
                "propstat",
                "",
                vec![el(
                    "prop",
                    "",
                    vec![el("displayname", display, vec![]), resourcetype, comp_set, privileges],
                )],
            ),
        ],
    )
}

#[test]
fn test_discovery_fallback_degrades_to_base_url() {
    // principal PROPFIND answered 404: no multistatus to walk, resolution
    // fails with the path error, and the caller substitutes the base address
    let empty = el("multistatus", "", vec![]);
    let base = "http://server.test/dav/";
    let principal = principal_url_from(&empty, base);
    assert!(matches!(principal, Err(MiniCaldavError::PathNotExists(_))));
    let resolved = fallback_url(principal, base);
    assert_eq!(resolved, base);

    // the listing against the base address still yields the calendars that
    // advertise event or todo support
    let listing = el(
        "multistatus",
        "",
        vec![
            calendar_entry("/cal/a/", "Calendar", vec!["calendar"], vec!["VEVENT"]),
            calendar_entry("/cal/b/", "Notes", vec!["calendar"], vec!["VJOURNAL"]),
        ],
    );
    let refs = parse_calendar_refs(&listing, resolved.as_str());
    assert_eq!(refs.len(), 1);
    assert_eq!(refs[0].name, "Calendar");
    assert_eq!(refs[0].url, "http://server.test/cal/a/");
    assert_eq!(refs[0].privileges, vec!["write".to_string(), "read".to_string()]);
    assert!(!refs[0].is_subscription);
}

#[test]
fn test_principal_and_home_set_resolution() {
    let principal_response = el(
        "multistatus",
        "",
        vec![el(
            "response",
            "",
            vec![el(
                "propstat",
                "",
                vec![el(
                    "prop",
                    "",
                    vec![el(
                        "current-user-principal",
                        "",
                        vec![el("href", "/principals/users/1", vec![])],
                    )],
                )],
            )],
        )],
    );
    // the walk reaches the href element through the fixed path
    let principal = principal_url_from(&principal_response, "http://server.test/dav/");
    assert_eq!(principal.unwrap(), "http://server.test/principals/users/1");

    let home_response = el(
        "multistatus",
        "",
        vec![el(
            "response",
            "",
            vec![el(
                "propstat",
                "",
                vec![el(
                    "prop",
                    "",
                    vec![el("calendar-home-set", "", vec![el("href", "/caldav/", vec![])])],
                )],
            )],
        )],
    );
    let home = home_set_url_from(&home_response, "http://server.test/principals/users/1");
    assert_eq!(home.unwrap(), "http://server.test/caldav/");

    // an unresolvable base address is reported as a join failure
    let bad = principal_url_from(&principal_response, "not a url");
    assert!(matches!(bad, Err(MiniCaldavError::CouldNotJoinUrl(_))));
}

#[test]
fn test_propfind_path_text_reports_missing_path() {
    let root = el("multistatus", "", vec![el("response", "", vec![])]);
    let missing = propfind_path_text(&root, &["response", "propstat", "prop"]);
    match missing {
        Err(MiniCaldavError::PathNotExists(p)) => {
            assert_eq!(p, "response/propstat/prop");
        }
        other => panic!("expected a path error, got {:?}", other),
    }
    let present = propfind_path_text(&root, &["response"]);
    assert_eq!(present.unwrap(), "");
}

#[test]
fn test_calendar_filter_excludes_non_calendars() {
    // an entry whose resourcetype lacks a calendar child is excluded even
    // though it carries a display name
    let listing = el(
        "multistatus",
        "",
        vec![
            calendar_entry("/cal/plain/", "Plain collection", vec![], vec!["VEVENT"]),
            calendar_entry("/cal/real/", "Real calendar", vec!["calendar"], vec!["VTODO"]),
            calendar_entry("/cal/feed/", "Feed", vec!["subscribed"], vec!["VEVENT"]),
        ],
    );
    let refs = parse_calendar_refs(&listing, "http://server.test/");
    assert_eq!(refs.len(), 2);
    assert_eq!(refs[0].name, "Real calendar");
    assert!(!refs[0].is_subscription);
    assert_eq!(refs[1].name, "Feed");
    assert!(refs[1].is_subscription);
}

#[test]
fn test_component_responses_require_href_etag_and_data() {
    let entry = |href: Option<&str>, etag: Option<&str>, data: Option<&str>| {
        let mut prop_children = vec![];
        if let Some(t) = etag {
            prop_children.push(el("getetag", t, vec![]));
        }
        if let Some(d) = data {
            prop_children.push(el("calendar-data", d, vec![]));
        }
        let mut children = vec![];
        if let Some(h) = href {
            children.push(el("href", h, vec![]));
        }
        children.push(el("propstat", "", vec![el("prop", "", prop_children)]));
        el("response", "", children)
    };
    let root = el(
        "multistatus",
        "",
        vec![
            entry(Some("/cal/a.ics"), Some("\"e1\""), Some("BEGIN:VCALENDAR\nEND:VCALENDAR\n")),
            entry(Some("/cal/b.ics"), None, Some("BEGIN:VCALENDAR\nEND:VCALENDAR\n")),
            entry(None, Some("\"e3\""), Some("BEGIN:VCALENDAR\nEND:VCALENDAR\n")),
            entry(Some("/cal/d.ics"), Some("\"e4\""), None),
        ],
    );
    let comps = parse_component_responses(&root, "http://server.test/");
    assert_eq!(comps.len(), 1);
    assert_eq!(comps[0].url(), "http://server.test/cal/a.ics");
    assert_eq!(comps[0].etag(), &Some("\"e1\"".to_string()));
}

#[test]
fn test_batch_parse_keeps_partial_successes() {
    let good1 = "BEGIN:VCALENDAR\nBEGIN:VEVENT\nSUMMARY:first\nEND:VEVENT\nEND:VCALENDAR\n";
    let bad = "BEGIN:VCALENDAR\nBAD LINE WITHOUT SEPARATOR\nEND:VCALENDAR\n";
    let good2 = "BEGIN:VCALENDAR\nBEGIN:VEVENT\nSUMMARY:third\nEND:VEVENT\nEND:VCALENDAR\n";
    let refs = vec![
        ComponentResponse::new("http://s/1.ics".to_string(), Some("\"a\"".to_string()), good1.to_string()),
        ComponentResponse::new("http://s/2.ics".to_string(), Some("\"b\"".to_string()), bad.to_string()),
        ComponentResponse::new("http://s/3.ics".to_string(), Some("\"c\"".to_string()), good2.to_string()),
    ];
    let (events, errors) = parse_batch(refs);
    assert_eq!(events.len(), 2);
    assert_eq!(events[0].get("SUMMARY"), Some(&"first".to_string()));
    assert_eq!(events[1].get("SUMMARY"), Some(&"third".to_string()));
    assert_eq!(events[0].url(), "http://s/1.ics");
    assert_eq!(errors.len(), 1);
    match &errors[0] {
        MiniCaldavError::CouldNotParseEvent(data, _) => {
            // the failure references the second input verbatim
            assert_eq!(data, bad);
        }
        other => panic!("expected a parse failure, got {:?}", other),
    }
}

#[test]
fn test_sequence_bump_on_save() {
    let text = "BEGIN:VCALENDAR\nBEGIN:VEVENT\nUID:u1\nSEQUENCE:4\nEND:VEVENT\nEND:VCALENDAR\n";
    let mut ical = Ical::parse(&mut LineIterator::new(text)).unwrap();
    bump_sequences(&mut ical);
    let transmitted = ical.serialize();
    assert!(transmitted.contains("SEQUENCE:5"));
    assert!(!transmitted.contains("SEQUENCE:4"));

    // a non-numeric revision is transmitted unchanged
    let text2 = "BEGIN:VCALENDAR\nBEGIN:VEVENT\nSEQUENCE:abc\nEND:VEVENT\nEND:VCALENDAR\n";
    let mut ical2 = Ical::parse(&mut LineIterator::new(text2)).unwrap();
    bump_sequences(&mut ical2);
    assert!(ical2.serialize().contains("SEQUENCE:abc"));
}

#[test]
fn test_decimal_reading_and_writing() {
    assert_eq!(parse_i64("0"), Some(0));
    assert_eq!(parse_i64("42"), Some(42));
    assert_eq!(parse_i64("+7"), Some(7));
    assert_eq!(parse_i64("-13"), Some(-13));
    assert_eq!(parse_i64("9223372036854775807"), Some(i64::MAX));
    assert_eq!(parse_i64("-9223372036854775808"), Some(i64::MIN));
    assert_eq!(parse_i64("9223372036854775808"), None);
    assert_eq!(parse_i64(""), None);
    assert_eq!(parse_i64("+"), None);
    assert_eq!(parse_i64("1 2"), None);
    assert_eq!(parse_i64("4.5"), None);
    assert_eq!(i64_to_dec(0), "0");
    assert_eq!(i64_to_dec(5), "5");
    assert_eq!(i64_to_dec(120), "120");
    assert_eq!(i64_to_dec(-37), "-37");
    assert_eq!(i64_to_dec(i64::MAX), "9223372036854775807");
}

#[test]
fn test_credentials_header() {
    let basic = Credentials::Basic("user".to_string(), "pass".to_string());
    // base64 of "user:pass"
    assert_eq!(basic.as_header(), "Basic dXNlcjpwYXNz");
    let bearer = Credentials::Bearer("token123".to_string());
    assert_eq!(bearer.as_header(), "Bearer token123");
}

#[test]
fn test_create_calendar_request_bodies() {
    let body = build_create_calendar_xml("Work".to_string(), "#ff0000".to_string());
    assert!(body.contains("<x0:displayname>Work</x0:displayname>"));
    assert!(body.contains("#ff0000"));
    assert!(body.contains("<x1:comp name=\"VEVENT\"/>"));

    let expanded = build_calendar_request_string(
        Some("20250101T000000Z".to_string()),
        Some("20251231T000000Z".to_string()),
        true,
    );
    assert!(expanded.contains("<c:expand start=\"20250101T000000Z\" end=\"20251231T000000Z\"/>"));
    assert!(expanded.contains("<c:time-range start=\"20250101T000000Z\" end=\"20251231T000000Z\"/>"));

    let bounded = build_calendar_request_string(None, None, false);
    assert!(bounded.contains("<c:limit-recurrence-set start=\"20000103T000000Z\" end=\"21000105T000000Z\"/>"));
}

#[test]
fn test_event_property_editing() {
    let text = "BEGIN:VCALENDAR\nBEGIN:VEVENT\nSUMMARY:old\nEND:VEVENT\nEND:VCALENDAR\n";
    let ical = Ical::parse(&mut LineIterator::new(text)).unwrap();
    let mut event = Event::new(None, "http://s/e.ics".to_string(), ical);
    assert_eq!(event.get("SUMMARY"), Some(&"old".to_string()));
    event.set("SUMMARY", "new");
    assert_eq!(event.get("SUMMARY"), Some(&"new".to_string()));
    event.set("LOCATION", "here");
    assert_eq!(event.get("LOCATION"), Some(&"here".to_string()));
    event.set_property_attribute("LOCATION", "LANGUAGE", "en");
    let p = event.property("LOCATION").unwrap();
    assert_eq!(p.attribute("LANGUAGE"), Some(&"en".to_string()));
    event.remove_property_attribute("LOCATION", "LANGUAGE");
    let p = event.property("LOCATION").unwrap();
    assert_eq!(p.attribute("LANGUAGE"), None);
    let popped = event.pop_property("LOCATION").unwrap();
    assert_eq!(popped.value(), "here");
    assert_eq!(event.get("LOCATION"), None);
    let pairs = event.properties();
    assert_eq!(pairs.len(), 1);
    assert_eq!(pairs[0].0, "SUMMARY");
    let all = event.get_all("SUMMARY").unwrap();
    assert_eq!(all, vec![&"new".to_string()]);
}

#[test]
fn test_event_builder_builds_component_tree() {
    let event = Event::builder("http://s/new.ics".to_string())
        .uid("uid-1".to_string())
        .timestamp("20240101T000000Z".to_string())
        .summary("party".to_string())
        .start("20240102T180000".to_string(), vec![("TZID", "Europe/Berlin")])
        .end("20240102T200000".to_string(), vec![("TZID", "Europe/Berlin")])
        .description(Some("cake".to_string()))
        .rrule(None)
        .build();
    let text = event.ical().serialize();
    assert!(text.starts_with("BEGIN:VCALENDAR\nBEGIN:VEVENT\n"));
    assert!(text.contains("UID:uid-1"));
    assert!(text.contains("SUMMARY:party"));
    assert!(text.contains("DTSTART;TZID=Europe/Berlin:20240102T180000"));
    assert!(text.contains("DESCRIPTION:cake"));
    assert!(!text.contains("RRULE"));
    assert!(text.ends_with("END:VEVENT\nEND:VCALENDAR\n"));

    let todo = Event::builder("http://s/t.ics".to_string())
        .uid("uid-2".to_string())
        .duedate("20240103".to_string())
        .build_todo();
    let ttext = todo.ical().serialize();
    assert!(ttext.contains("BEGIN:VTODO"));
    assert!(ttext.contains("DUE:20240103"));
}

#[test]
fn test_api_property_conversions() {
    let p = ApiProperty::new_with_attributes("DTSTART", "20240101", vec![("TZID", "UTC")]);
    assert_eq!(p.name(), "DTSTART");
    assert_eq!(p.value(), "20240101");
    assert_eq!(p.attribute("TZID"), Some(&"UTC".to_string()));
    assert_eq!(p.attribute("VALUE"), None);
    let inner: Property = p.into();
    assert_eq!(inner.serialize(), "DTSTART;TZID=UTC:20240101");
    let back: ApiProperty = inner.into();
    assert_eq!(back.into_value(), "20240101");
}

#[test]
fn test_vcalendar_props_component_lookup() {
    let text = "BEGIN:VCALENDAR\nBEGIN:VEVENT\nUID:a\nEND:VEVENT\nBEGIN:VEVENT\nUID:b\nRECURRENCE-ID:20240105\nEND:VEVENT\nBEGIN:VTODO\nUID:t\nEND:VTODO\nEND:VCALENDAR\n";
    let ical = Ical::parse(&mut LineIterator::new(text)).unwrap();
    let mut props = VCalendarProps::new("http://s/x.ics".to_string(), Some("\"e\"".to_string()), ical);
    assert!(props.contains_uid(&"t".to_string()));
    assert!(!props.contains_uid(&"a".to_string()));
    assert!(props.get_vevent(&"a".to_string()).is_some());
    assert!(props.get_vevent(&"t".to_string()).is_none());
    let by_recur = props.get_vevent_by_recurence_id(&"20240105".to_string()).unwrap();
    assert_eq!(by_recur.properties[0].value, "b");
    let ev = props.get_vevent_mut(&"a".to_string()).unwrap();
    ev.properties.push(Property::new("STATUS", "CONFIRMED"));
    assert_eq!(props.inner().children[0].properties.len(), 2);
    assert_eq!(props.url(), "http://s/x.ics");
    assert_eq!(props.etag(), Some(&"\"e\"".to_string()));
}

#[test]
fn test_component_carries_url_etag_and_tree() {
    let text = "BEGIN:VCALENDAR\nBEGIN:VEVENT\nUID:c1\nEND:VEVENT\nEND:VCALENDAR\n";
    let ical = Ical::parse(&mut LineIterator::new(text)).unwrap();
    let mut comp = Component::new("http://s/c.ics".to_string(), None, ical);
    assert_eq!(comp.url(), "http://s/c.ics");
    assert_eq!(comp.etag(), None);
    comp.set_etag(Some("\"v2\"".to_string()));
    assert_eq!(comp.etag(), Some(&"\"v2\"".to_string()));
    comp.set_url("http://s/c2.ics".to_string());
    assert_eq!(comp.url(), "http://s/c2.ics");
    let inner = comp.inner_mut();
    inner.properties.push(Property::new("METHOD", "PUBLISH"));
    assert_eq!(comp.inner().properties.len(), 1);
    let tree = comp.into_inner();
    assert_eq!(tree.children[0].properties[0].value, "c1");
}

#[test]
fn test_calendar_getters_and_writable() {
    let writable = Calendar::new(
        "http://s/".to_string(),
        CalendarRef {
            url: "http://s/cal/".to_string(),
            name: "Mine".to_string(),
            color: Some("#00ff00".to_string()),
            privileges: vec!["read".to_string(), "write".to_string()],
            is_subscription: false,
        },
    );
    assert_eq!(writable.url(), "http://s/cal/");
    assert_eq!(writable.base_url(), "http://s/");
    assert_eq!(writable.name(), "Mine");
    assert_eq!(writable.color(), Some(&"#00ff00".to_string()));
    assert!(writable.writable());
    assert!(!writable.is_subscription());

    let readonly = Calendar::new(
        "http://s/".to_string(),
        CalendarRef {
            url: "http://s/feed/".to_string(),
            name: "Feed".to_string(),
            color: None,
            privileges: vec!["read".to_string()],
            is_subscription: true,
        },
    );
    assert!(!readonly.writable());
    assert!(readonly.is_subscription());
}

#[test]
fn test_todo_batch_tags_failures_as_todo_errors() {
    let good = "BEGIN:VCALENDAR\nBEGIN:VTODO\nSUMMARY:chore\nEND:VTODO\nEND:VCALENDAR\n";
    let bad = "BEGIN:VCALENDAR\nBROKEN";
    let refs = vec![
        ComponentResponse::new("http://s/t1.ics".to_string(), None, good.to_string()),
        ComponentResponse::new("http://s/t2.ics".to_string(), None, bad.to_string()),
    ];
    let (todos, errors) = parse_batch_todos(refs);
    assert_eq!(todos.len(), 1);
    assert_eq!(todos[0].property_todo("SUMMARY").unwrap().value(), "chore");
    assert_eq!(errors.len(), 1);
    match &errors[0] {
        MiniCaldavError::CouldNotParseTodo(data, _) => assert_eq!(data, bad),
        other => panic!("expected a todo parse failure, got {:?}", other),
    }
}
