use minicaldav::ical::Error;
use minicaldav::ical::Ical;
use minicaldav::ical::LineIterator;
use minicaldav::ical::Property;

#[test]
fn test_ical_calendar_with_properties() {
    let ical = r#"BEGIN:VCALENDAR
VERSION:2.0
PRODID:-//ZContent.net//Zap Calendar 1.0//EN
CALSCALE:GREGORIAN
METHOD:PUBLISH
END:VCALENDAR"#;
    assert_eq!(
        Ical::parse(&mut LineIterator::new(ical)),
        Ok(Ical {
            name: "VCALENDAR".to_string(),
            properties: vec![
                Property::new("VERSION", "2.0"),
                Property::new("PRODID", "-//ZContent.net//Zap Calendar 1.0//EN"),
                Property::new("CALSCALE", "GREGORIAN"),
                Property::new("METHOD", "PUBLISH"),
            ],
            children: vec![]
        })
    );
}

#[test]
fn test_ical_calendar_with_events() {
    let ical = r#"BEGIN:VCALENDAR
VERSION:2.0
PRODID:-//ZContent.net//Zap Calendar 1.0//EN
CALSCALE:GREGORIAN
METHOD:PUBLISH
BEGIN:VEVENT
SUMMARY:Abraham Lincoln
UID:c7614cff-3549-4a00-9152-d25cc1fe077d
SEQUENCE:0
STATUS:CONFIRMED
TRANSP:TRANSPARENT
RRULE:FREQ=YEARLY;INTERVAL=1;BYMONTH=2;BYMONTHDAY=12
DTSTART:20080212
DTEND:20080213
DTSTAMP:20150421T141403
CATEGORIES:U.S. Presidents,Civil War People
LOCATION:Hodgenville\, Kentucky
GEO:37.5739497;-85.7399606
DESCRIPTION:Born February 12\, 1809\nSixteenth President (1861-1865)\n\n\n\nhttp://AmericanHistoryCalendar.com
URL:http://americanhistorycalendar.com/peoplecalendar/1,328-abraham-lincoln
END:VEVENT
END:VCALENDAR"#;
    let parsed = Ical::parse(&mut LineIterator::new(ical));
    assert_eq!(
        parsed,
        Ok(Ical {
            name: "VCALENDAR".into(),
            properties: vec![
                Property::new("VERSION", "2.0"),
                Property::new("PRODID", "-//ZContent.net//Zap Calendar 1.0//EN"),
                Property::new("CALSCALE", "GREGORIAN"),
                Property::new("METHOD", "PUBLISH"),
            ],
            children: vec![
                Ical {
                    name: "VEVENT".into(),
                    properties: vec![
                        Property::new("SUMMARY", "Abraham Lincoln"),
                        Property::new("UID", "c7614cff-3549-4a00-9152-d25cc1fe077d"),
                        Property::new("SEQUENCE", "0"),
                        Property::new("STATUS", "CONFIRMED"),
                        Property::new("TRANSP", "TRANSPARENT"),
                        Property::new("RRULE", "FREQ=YEARLY;INTERVAL=1;BYMONTH=2;BYMONTHDAY=12"),
                        Property::new("DTSTART", "20080212"),
                        Property::new("DTEND", "20080213"),
                        Property::new("DTSTAMP", "20150421T141403"),
                        Property::new("CATEGORIES", "U.S. Presidents,Civil War People"),
                        Property::new("LOCATION", "Hodgenville\\, Kentucky"),
                        Property::new("GEO", "37.5739497;-85.7399606"),
                        Property::new("DESCRIPTION", "Born February 12\\, 1809\\nSixteenth President (1861-1865)\\n\\n\\n\\nhttp://AmericanHistoryCalendar.com"),
                        Property::new("URL", "http://americanhistorycalendar.com/peoplecalendar/1,328-abraham-lincoln"),
                    ],
                    children: vec![]
                }
            ]
        })
    );
}

#[test]
fn test_ical_calendar_with_event_with_long_description_and_linebreak() {
    let ical = r#"BEGIN:VCALENDAR
VERSION:2.0
PRODID:-//ZContent.net//Zap Calendar 1.0//EN
CALSCALE:GREGORIAN
METHOD:PUBLISH
BEGIN:VEVENT
SUMMARY:Abraham Lincoln
UID:c7614cff-3549-4a00-9152-d25cc1fe077d
SEQUENCE:0
STATUS:CONFIRMED
TRANSP:TRANSPARENT
RRULE:FREQ=YEARLY;INTERVAL=1;BYMONTH=2;BYMONTHDAY=12
DTSTART:20080212
DTEND:20080213
DTSTAMP:20150421T141403
CATEGORIES:U.S. Presidents,Civil War People
LOCATION:Hodgenville\, Kentucky
GEO:37.5739497;-85.7399606
DESCRIPTION:Lorem ipsum dolor sit amet, consectetur adipiscing elit, sed do
  eiusmod tempor incididunt ut labore et dolore magna aliqua
URL:http://americanhistorycalendar.com/peoplecalendar/1,328-abraham-lincoln
END:VEVENT
END:VCALENDAR
    "#;
    let parsed = Ical::parse(&mut LineIterator::new(ical));
    assert_eq!(
        parsed,
        Ok(Ical {
            name: "VCALENDAR".into(),
            properties: vec![
                Property::new("VERSION", "2.0"),
                Property::new("PRODID", "-//ZContent.net//Zap Calendar 1.0//EN"),
                Property::new("CALSCALE", "GREGORIAN"),
                Property::new("METHOD", "PUBLISH"),
            ],
            children: vec![
                Ical {
                    name: "VEVENT".into(),
                    properties: vec![
                        Property::new("SUMMARY", "Abraham Lincoln"),
                        Property::new("UID", "c7614cff-3549-4a00-9152-d25cc1fe077d"),
                        Property::new("SEQUENCE", "0"),
                        Property::new("STATUS", "CONFIRMED"),
                        Property::new("TRANSP", "TRANSPARENT"),
                        Property::new("RRULE", "FREQ=YEARLY;INTERVAL=1;BYMONTH=2;BYMONTHDAY=12"),
                        Property::new("DTSTART", "20080212"),
                        Property::new("DTEND", "20080213"),
                        Property::new("DTSTAMP", "20150421T141403"),
                        Property::new("CATEGORIES", "U.S. Presidents,Civil War People"),
                        Property::new("LOCATION", "Hodgenville\\, Kentucky"),
                        Property::new("GEO", "37.5739497;-85.7399606"),
                        Property::new("DESCRIPTION", "Lorem ipsum dolor sit amet, consectetur adipiscing elit, sed do eiusmod tempor incididunt ut labore et dolore magna aliqua"),
                        Property::new("URL", "http://americanhistorycalendar.com/peoplecalendar/1,328-abraham-lincoln"),
                    ],
                    children: vec![]
                }
            ]
        })
    );
}

#[test]
fn test_ical_with_max_line_linebreaks() {
    let ical = r#"BEGIN:VCALENDAR
VERSION:2.0
PRODID:asdf
BEGIN:VTIMEZONE
TZID:Europe/Berlin
LAST-MODIFIED:20220317T223602Z
TZURL:http://tzurl.org/zoneinfo-outlook/Europe/Berlin
X-LIC-LOCATION:Europe/Berlin
BEGIN:DAYLIGHT
TZNAME:CEST
TZOFFSETFROM:+0100
TZOFFSETTO:+0200
DTSTART:19700329T020000
RRULE:FREQ=YEARLY;BYMONTH=3;BYDAY=-1SU
END:DAYLIGHT
BEGIN:STANDARD
TZNAME:CET
TZOFFSETFROM:+0200
TZOFFSETTO:+0100
DTSTART:19701025T030000
RRULE:FREQ=YEARLY;BYMONTH=10;BYDAY=-1SU
END:STANDARD
END:VTIMEZONE
BEGIN:VEVENT
DTSTAMP:20220611T081002Z
ATTACH;FILENAME=arrow_up.svg;FMTTYPE=image/svg+xml;SIZE=2516;MANAGED-ID=1:h
 ttps://caldab.caldav.org/attachments/123456789012345/test.svg
ATTENDEE;CN=Fooo;PARTSTAT=NEEDS-ACTION;CUTYPE=INDIVIDUAL;EMAIL=foooooo.baaa
 aaar@fobar.com;X-CALENDARSERVER-DTSTAMP=20220611T081002Z:mailto:foooooo.ba
 aaaaar@fobar.com
ATTENDEE;CN=Foooooo Baaar;PARTSTAT=ACCEPTED;CUTYPE=INDIVIDUAL;EMAIL=foooo@b
 aaaaar.org;X-CALENDARSERVER-DTSTAMP=20220611T080833Z:mailto:foooo@baaaaar.
 org
CLASS:CONFIDENTIAL
CREATED:20220611T080833Z
DESCRIPTION:Lorem ipsum dolor sit amet\\, consectetur adipiscing elit\\, sed 
 do eiusmod tempor incididunt ut labore et dolore magna aliqua. Ut enim ad 
 minim veniam\\, quis nostrud exercitation ullamco laboris nisi ut aliquip e
 x ea commodo consequat. Duis aute irure dolor in reprehenderit in voluptat
 e velit esse cillum dolore eu fugiat nulla pariatur. Excepteur sint occaec
 at cupidatat non proident\\, sunt in culpa qui officia deserunt mollit anim
 id est laborum.
DTSTART;TZID="(UTC-08:00) Pacific Time (US & Canada)";VALUE=DATE-TIME:2019
 1209T140000
DTEND;TZID="(UTC-08:00) Pacific Time (US & Canada)";VALUE=DATE-TIME:201912
 09T150000
LAST-MODIFIED:20220611T081002Z
ORGANIZER;CN=Foooooo Baaar;EMAIL=foooo@baaaaar.org:mailto:foooo@baaaaar.org
RRULE:FREQ=DAILY;COUNT=1
SEQUENCE:1
SUMMARY:Kaputtest
TRANSP:TRANSPARENT
UID:11111111-1111-1111-1111-111111111111
BEGIN:VALARM
TRIGGER;RELATED=START:-PT15M
UID:11111111-1111-1111-1111-111111111112
ACTION:DISPLAY
DESCRIPTION:reminder
END:VALARM
END:VEVENT
END:VCALENDAR"#;

    let parsed = Ical::parse(&mut LineIterator::new(ical));
    assert!(parsed.is_ok());
    let cal = parsed.unwrap();
    assert_eq!(
        cal.children[1].properties[0].serialize(),
        "DTSTAMP:20220611T081002Z"
    );
    let p1 = cal.children[1].properties[1].serialize();
    assert!(
        p1.starts_with("ATTACH")
            && p1.ends_with("https://caldab.caldav.org/attachments/123456789012345/test.svg")
    );
    let p2 = cal.children[1].properties[2].serialize();
    assert!(p2.starts_with("ATTENDEE") && p2.ends_with(":mailto:foooooo.baaaaaar@fobar.com"));
    let p6 = cal.children[1].properties[6].serialize();
    assert_eq!(
        p6, ("DESCRIPTION:Lorem ipsum dolor sit amet\\\\, consectetur adipiscing elit\\\\, sed do eiusmod tempor incididunt ut labore et dolore magna aliqua. Ut enim ad minim veniam\\\\, quis nostrud exercitation ullamco laboris nisi ut aliquip ex ea commodo consequat. Duis aute irure dolor in reprehenderit in voluptate velit esse cillum dolore eu fugiat nulla pariatur. Excepteur sint occaecat cupidatat non proident\\\\, sunt in culpa qui officia deserunt mollit animid est laborum.")
    );
    assert_eq!(cal.children[1].properties[7].value, "20191209T140000");
    assert_eq!(cal.children[1].properties[8].value, "20191209T150000");
}

#[test]
fn test_serialize() {
    let expectation = r#"BEGIN:VCALENDAR
VERSION:2.0
PRODID:-//ZContent.net//Zap Calendar 1.0//EN
CALSCALE:GREGORIAN
METHOD:PUBLISH
BEGIN:VEVENT
SUMMARY:Abraham Lincoln
UID:c7614cff-3549-4a00-9152-d25cc1fe077d
SEQUENCE:0
STATUS:CONFIRMED
TRANSP:TRANSPARENT
RRULE:FREQ=YEARLY;INTERVAL=1;BYMONTH=2;BYMONTHDAY=12
DTSTART:20080212
DTEND:20080213
DTSTAMP:20150421T141403
CATEGORIES:U.S. Presidents,Civil War People
LOCATION:Hodgenville\, Kentucky
GEO:37.5739497;-85.7399606
DESCRIPTION:Born February 12\, 1809\nSixteenth President (1861-1865)\n\n\n\nhttp://AmericanHistoryCalendar.com
URL:http://americanhistorycalendar.com/peoplecalendar/1,328-abraham-lincoln
END:VEVENT
END:VCALENDAR
"#;

    let ical = Ical {
        name: "VCALENDAR".into(),
        properties: vec![
            Property::new("VERSION", "2.0"),
            Property::new("PRODID", "-//ZContent.net//Zap Calendar 1.0//EN"),
            Property::new("CALSCALE", "GREGORIAN"),
            Property::new("METHOD", "PUBLISH"),
        ],
        children: vec![
            Ical {
                name: "VEVENT".into(),
                properties: vec![
                    Property::new("SUMMARY", "Abraham Lincoln"),
                    Property::new("UID", "c7614cff-3549-4a00-9152-d25cc1fe077d"),
                    Property::new("SEQUENCE", "0"),
                    Property::new("STATUS", "CONFIRMED"),
                    Property::new("TRANSP", "TRANSPARENT"),
                    Property::new("RRULE", "FREQ=YEARLY;INTERVAL=1;BYMONTH=2;BYMONTHDAY=12"),
                    Property::new("DTSTART", "20080212"),
                    Property::new("DTEND", "20080213"),
                    Property::new("DTSTAMP", "20150421T141403"),
                    Property::new("CATEGORIES", "U.S. Presidents,Civil War People"),
                    Property::new("LOCATION", "Hodgenville\\, Kentucky"),
                    Property::new("GEO", "37.5739497;-85.7399606"),
                    Property::new("DESCRIPTION", "Born February 12\\, 1809\\nSixteenth President (1861-1865)\\n\\n\\n\\nhttp://AmericanHistoryCalendar.com"),
                    Property::new("URL", "http://americanhistorycalendar.com/peoplecalendar/1,328-abraham-lincoln"),
                ],
                children: vec![]
            }
        ]
    };

    assert_eq!(ical.serialize(), expectation);
}

/// This test uses a two-byte char to check whether they are correctly treated.
#[test]
fn test_ical_with_umlaut_in_property() {
    let ical = r#"BEGIN:VCALENDAR
VERSION:2.0
PRODID:-//Open-Xchange//7.10.6-Rev16//EN
BEGIN:VEVENT
ATTENDEE;CN="Alice Rüd";RSVP=TRUE;EMAIL=alice@example.com:mailto:alice@example.com
DTEND;TZID=Europe/Berlin:20210808T220000
DTSTART;TZID=Europe/Berlin:20210808T200000
SEQUENCE:0
STATUS:CONFIRMED
SUMMARY:Let's go and find something to eat
TRANSP:OPAQUE
UID:5dd6eacd-c03d-4a47-b2b4-327486fc000c
END:VEVENT
END:VCALENDAR"#;

    let parsed = Ical::parse(&mut LineIterator::new(ical));
    assert!(parsed.is_ok());
    let cal = parsed.unwrap();
    assert_eq!(
        cal.children[0].properties[0],
        Property::new_with_attributes(
            "ATTENDEE",
            "mailto:alice@example.com",
            vec![
                ("RSVP", "TRUE"),
                ("EMAIL", "alice@example.com"),
                ("CN", "\"Alice Rüd\"")
            ]
        )
    );
}

#[test]
fn test_event_with_long_location() {
    let ical = r#"BEGIN:VCALENDAR
CALSCALE:GREGORIAN
PRODID:-//Apple Inc.//iOS 13.2//EN
VERSION:2.0
BEGIN:VTIMEZONE
TZID:America/Vancouver
BEGIN:DAYLIGHT
DTSTART:20070311T020000
RRULE:FREQ=YEARLY;BYMONTH=3;BYDAY=2SU
TZNAME:GMT-7
TZOFFSETFROM:-0800
TZOFFSETTO:-0700
END:DAYLIGHT
BEGIN:STANDARD
DTSTART:20071104T020000
RRULE:FREQ=YEARLY;BYMONTH=11;BYDAY=1SU
TZNAME:GMT-8
TZOFFSETFROM:-0700
TZOFFSETTO:-0800
END:STANDARD
END:VTIMEZONE
BEGIN:VEVENT
CREATED:20191002T181641Z
DTEND;TZID=America/Vancouver:20191014T090000
DTSTAMP:20191014T050818Z
DTSTART;TZID=America/Vancouver:20191014T070000
LAST-MODIFIED:20191002T181641Z
LOCATION:312 Boren Ave South\nSeattle WA 98144\nUSA
SEQUENCE:0
SUMMARY:Truline Swaybar Bushing Installation
TRANSP:OPAQUE
UID:2DC25870-241F-4279-9720-AB26C8DA5A60
URL;VALUE=URI:
X-APPLE-STRUCTURED-LOCATION;VALUE=URI;X-ADDRESS=312 Boren Ave South\\nSe
 attle WA 98144\\nUSA;X-APPLE-ABUID=Doug Tate Tru-Line’s Work;X-APPLE-MAP
 KIT-HANDLE=CAESjQIIwjsaEglN7OsKx8xHQBF/pyRGKpRewCKEAQoNVW5pdGVkIFN0YXRlc
 xICVVMaCldhc2hpbmd0b24iAldBKgRLaW5nMgdTZWF0dGxlOgU5ODE0NEIIQXRsYW50aWNSC
 0JvcmVuIEF2ZSBTWgMzMTJiDzMxMiBCb3JlbiBBdmUgU4oBEENlbnRyYWwgRGlzdHJpY3SKA
 QhBdGxhbnRpYyoPMzEyIEJvcmVuIEF2ZSBTMg8zMTIgQm9yZW4gQXZlIFMyElNlYXR0bGUsI
 FdBICA5ODE0NDINVW5pdGVkIFN0YXRlczg5QARaJAoiEhIJTezrCsfMR0ARf6ckRiqUXsAYw
 jsgodmfx+vg0YSuAQ==;X-APPLE-RADIUS=22.28845908357249;X-APPLE-REFERENCEFR
 AME=1;X-TITLE=312 Boren Ave South\\nSeattle WA 98144\\nUSA:geo:47.599824
 ,-122.315080
X-APPLE-TRAVEL-ADVISORY-BEHAVIOR:DISABLED
BEGIN:VALARM
ACTION:DISPLAY
DESCRIPTION:Reminder
TRIGGER:-PT30M
UID:02D84865-7611-4380-9B6E-41EAE7D4A6C8
X-WR-ALARMUID:02D84865-7611-4380-9B6E-41EAE7D4A6C8
END:VALARM
BEGIN:VALARM
ACTION:DISPLAY
DESCRIPTION:Reminder
TRIGGER:-P1D
UID:087E2F5A-0104-4DAE-B6C7-E63A50A52B03
X-WR-ALARMUID:087E2F5A-0104-4DAE-B6C7-E63A50A52B03
END:VALARM
END:VEVENT
END:VCALENDAR
"#;

    let parsed = Ical::parse(&mut LineIterator::new(ical));
    assert!(parsed.is_ok());
    let cal = parsed.unwrap();

    let apple_location = &cal.children[1].properties[11];
    assert_eq!(apple_location.name, "X-APPLE-STRUCTURED-LOCATION");
    assert_eq!(apple_location.value, "geo:47.599824,-122.315080");
}

#[test]
fn test_round_trip_parse_of_serialized_tree() {
    let tree = Ical {
        name: "VCALENDAR".into(),
        properties: vec![Property::new("VERSION", "2.0")],
        children: vec![Ical {
            name: "VEVENT".into(),
            properties: vec![
                Property::new("SUMMARY", "Tea"),
                Property::new_with_attributes("DTSTART", "20240101T100000", vec![("TZID", "Europe/Berlin")]),
            ],
            children: vec![],
        }],
    };
    let text = tree.serialize();
    let parsed = Ical::parse(&mut LineIterator::new(text.as_str()));
    assert_eq!(parsed, Ok(tree));
}

#[test]
fn test_folded_value_parses_like_unfolded() {
    let folded = "BEGIN:VCALENDAR\nDESCRIPTION:one two\n  three\nEND:VCALENDAR";
    let unfolded = "BEGIN:VCALENDAR\nDESCRIPTION:one two three\nEND:VCALENDAR";
    let a = Ical::parse(&mut LineIterator::new(folded)).unwrap();
    let b = Ical::parse(&mut LineIterator::new(unfolded)).unwrap();
    assert_eq!(a, b);
    assert_eq!(a.properties[0].value, "one two three");
}

#[test]
fn test_quoted_colon_in_parameter() {
    let parsed = Property::parse("ATTENDEE;CN=\"Alice: Rüd\";EMAIL=a@b.c:mailto:a@b.c").unwrap();
    assert_eq!(parsed.name, "ATTENDEE");
    assert_eq!(parsed.value, "mailto:a@b.c");
    assert_eq!(
        parsed,
        Property::new_with_attributes(
            "ATTENDEE",
            "mailto:a@b.c",
            vec![("CN", "\"Alice: Rüd\""), ("EMAIL", "a@b.c")]
        )
    );
}

#[test]
fn test_nested_containers_attach_to_their_levels() {
    let text = "BEGIN:VCALENDAR\nVERSION:2.0\nBEGIN:VEVENT\nSUMMARY:x\nBEGIN:VALARM\nACTION:DISPLAY\nEND:VALARM\nEND:VEVENT\nEND:VCALENDAR";
    let cal = Ical::parse(&mut LineIterator::new(text)).unwrap();
    assert_eq!(cal.name, "VCALENDAR");
    assert_eq!(cal.properties, vec![Property::new("VERSION", "2.0")]);
    assert_eq!(cal.children.len(), 1);
    let event = &cal.children[0];
    assert_eq!(event.name, "VEVENT");
    assert_eq!(event.properties, vec![Property::new("SUMMARY", "x")]);
    assert_eq!(event.children.len(), 1);
    let alarm = &event.children[0];
    assert_eq!(alarm.name, "VALARM");
    assert_eq!(alarm.properties, vec![Property::new("ACTION", "DISPLAY")]);
    assert_eq!(alarm.children.len(), 0);
}

#[test]
fn test_unterminated_container_fails_with_its_name() {
    let text = "BEGIN:VCALENDAR\nBEGIN:VEVENT\nSUMMARY:x";
    let parsed = Ical::parse(&mut LineIterator::new(text));
    assert_eq!(parsed, Err(Error::new("Missing END:VEVENT".to_string())));
}

#[test]
fn test_empty_input_fails() {
    let parsed = Ical::parse(&mut LineIterator::new(""));
    assert_eq!(parsed, Err(Error::new("Invalid input".to_string())));
    let no_begin = Ical::parse(&mut LineIterator::new("VERSION:2.0\nSUMMARY:x"));
    assert_eq!(no_begin, Err(Error::new("Invalid input".to_string())));
}

#[test]
fn test_property_line_without_colon_fails() {
    let text = "BEGIN:VEVENT\nNO-COLON-HERE\nEND:VEVENT";
    let parsed = Ical::parse(&mut LineIterator::new(text));
    assert_eq!(
        parsed,
        Err(Error::new("Invalid property: NO-COLON-HERE".to_string()))
    );
}

#[test]
fn test_property_getters() {
    let p = Property::parse("DTSTART;TZID=Europe/Berlin:20210808T200000").unwrap();
    assert_eq!(p.name, "DTSTART");
    assert_eq!(p.value, "20210808T200000");
    assert_eq!(p.is("DTSTART"), Some(&"20210808T200000".to_string()));
    assert_eq!(p.is("DTEND"), None);
    assert_eq!(p.serialize(), "DTSTART;TZID=Europe/Berlin:20210808T200000");
}

#[test]
fn test_container_child_lookup() {
    let text = "BEGIN:VCALENDAR\nBEGIN:VTIMEZONE\nTZID:UTC\nEND:VTIMEZONE\nBEGIN:VEVENT\nSUMMARY:x\nEND:VEVENT\nEND:VCALENDAR";
    let mut cal = Ical::parse(&mut LineIterator::new(text)).unwrap();
    assert!(cal.get("VTIMEZONE").is_some());
    assert_eq!(cal.get("VEVENT").unwrap().properties[0].value, "x");
    assert!(cal.get("VTODO").is_none());
    let event = cal.get_mut("VEVENT").unwrap();
    event.properties.push(Property::new("STATUS", "CONFIRMED"));
    assert_eq!(cal.get("VEVENT").unwrap().properties.len(), 2);
}

#[test]
fn test_carriage_return_line_endings() {
    let text = "BEGIN:VCALENDAR\r\nVERSION:2.0\r\nBEGIN:VEVENT\r\nSUMMARY:x\r\nEND:VEVENT\r\nEND:VCALENDAR\r\n";
    let parsed = Ical::parse(&mut LineIterator::new(text)).unwrap();
    assert_eq!(parsed.properties, vec![Property::new("VERSION", "2.0")]);
    assert_eq!(parsed.children[0].properties[0].value, "x");
}
