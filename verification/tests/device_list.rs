use inertia::devices::{find_event_device_by_name, not_found_message};

const LIST: &str = "I: Bus=0019 Vendor=0000 Product=0001 Version=0000
N: Name=\"Power Button\"
P: Phys=PNP0C0C/button/input0
H: Handlers=kbd event0
B: EV=3

I: Bus=0018 Vendor=04f3 Product=31ee Version=0100
N: Name=\"ELAN Touchpad\"
H: Handlers=mouse2
B: EV=b

I: Bus=0018 Vendor=04f3 Product=31ee Version=0100
N: Name=\"ELAN Touchpad\"
H: Handlers=mouse1 event7 event9
B: EV=b

I: Bus=0018 Vendor=04f3 Product=31ee Version=0100
N: Name=\"ELAN Touchpad\"
H: Handlers=mouse3 event8
";

/// The same search, written with the text functions of std.
fn search(content: &str, device_name: &str) -> Option<String> {
    for block in content.split("\n\n") {
        let mut name = None;
        let mut handlers = None;
        for line in block.lines() {
            if let Some(rest) = line.strip_prefix("N: Name=\"") {
                name = Some(rest.trim_end_matches('"'));
            } else if let Some(rest) = line.strip_prefix("H: Handlers=") {
                handlers = Some(rest.split_whitespace().collect::<Vec<_>>());
            }
        }
        if let (Some(n), Some(hs)) = (name, handlers) {
            if n == device_name {
                if let Some(h) = hs.into_iter().find(|h| h.starts_with("event")) {
                    return Some(format!("/dev/input/{}", h));
                }
            }
        }
    }
    None
}

fn agrees(content: &str, device_name: &str) {
    let found = find_event_device_by_name(content, device_name);
    assert_eq!(found.clone().ok(), search(content, device_name), "{content:?} {device_name:?}");
    if let Err(message) = found {
        let expected =
            format!("No input device named {:?} found in /proc/bus/input/devices", device_name);
        assert_eq!(message, expected);
    }
}

#[test]
fn the_first_block_with_an_event_handler_counts() {
    assert_eq!(
        find_event_device_by_name(LIST, "ELAN Touchpad"),
        Ok("/dev/input/event7".to_string())
    );
    assert_eq!(
        find_event_device_by_name(LIST, "Power Button"),
        Ok("/dev/input/event0".to_string())
    );
}

#[test]
fn a_missing_device_is_reported() {
    assert_eq!(
        find_event_device_by_name(LIST, "a \"b\""),
        Err("No input device named \"a \\\"b\\\"\" found in /proc/bus/input/devices".to_string())
    );
    assert_eq!(
        not_found_message("'x'"),
        "No input device named 'x' found in /proc/bus/input/devices"
    );
}

#[test]
fn later_lines_of_a_block_replace_earlier_ones() {
    let list = "N: Name=\"a\"\nN: Name=\"b\"\"\"\nH: Handlers=event1\nH: Handlers=x\teventful event2";
    agrees(list, "a");
    assert_eq!(find_event_device_by_name(list, "b"), Ok("/dev/input/eventful".to_string()));
}

#[test]
fn line_endings() {
    agrees("N: Name=\"a\"\r\nH: Handlers=event1\r\n\r\n", "a");
    agrees("N: Name=\"a\"\r", "a\"\r");
    agrees("N: Name=\"a\r\nH: Handlers=event1", "a");
    agrees("N: Name=\"a\r\r\nH: Handlers=event1", "a\r");
    agrees("H: Handlers=event1\nN: Name=\"a\r", "a\r");
    agrees("", "");
    agrees("\n\n\n", "");
    agrees("N: Name=\"\nH: Handlers=event", "");
    agrees("x\n\n\nN: Name=\"a\"\nH: Handlers=event5\n\n\n\n", "a");
}

#[test]
fn words_end_at_white_space() {
    for u in (0u32..0x3200).chain(0xfe00..0x10000).chain(0x1f600..0x1f610) {
        if let Some(c) = char::from_u32(u) {
            agrees(&format!("N: Name=\"a\"\nH: Handlers=kbd{c}event4{c}x"), "a");
        }
    }
}

#[test]
fn random_lists() {
    let pieces = [
        "N: Name=\"", "H: Handlers=", "event", "a", "\"", "\n", "\n", "\n\n", " ", "\r", "\t", "é", "1",
    ];
    let mut seed: u64 = 11;
    for _ in 0..6000 {
        let mut text = String::new();
        for _ in 0..14 {
            seed = seed.wrapping_mul(6364136223846793005).wrapping_add(1442695040888963407);
            text.push_str(pieces[(seed >> 33) as usize % pieces.len()]);
        }
        agrees(&text, "a");
        agrees(&text, "");
    }
}

#[test]
fn a_listed_device_is_found() {
    for name in ["", "a", "tr\"ack\tpad", "N: Name=\"x", "\r"] {
        let block = format!("N: Name=\"{name}\"\nH: Handlers=event31");
        assert_eq!(find_event_device_by_name(&block, name), Ok("/dev/input/event31".to_string()));
        let list = format!("I: first\n\n{block}\n\n{block}2");
        assert_eq!(find_event_device_by_name(&list, name), Ok("/dev/input/event31".to_string()));
    }
}

#[test]
fn further_text_changes_nothing() {
    let found = Ok("/dev/input/event7".to_string());
    for rest in ["", "\n", "\n\n", "x", "N: Name=\"ELAN Touchpad\"\nH: Handlers=event1", LIST] {
        for list in [LIST, LIST.trim_end()] {
            let more = format!("{list}\n\n{rest}");
            assert_eq!(find_event_device_by_name(&more, "ELAN Touchpad"), found);
        }
    }
    // A carriage return before the last line break becomes part of the last line.
    let list = "H: Handlers=event1\nN: Name=\"a\"\r\n";
    assert!(find_event_device_by_name(list, "a").is_ok());
    assert!(find_event_device_by_name(&format!("{list}\n\n"), "a").is_err());
}
