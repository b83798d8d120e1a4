use queue_manager::entry::PlaylistEntry;
use queue_manager::entry::entry_from_json;
use queue_manager::entry::entry_to_json;
use queue_manager::keys::QueueKey;
use queue_manager::keys::discover_queue_keys;
use queue_manager::keys::match_queue_key;
use queue_manager::render::lrange_bounds;
use queue_manager::render::render_entry;
use queue_manager::render::render_queue;
use queue_manager::select::menu_lines;
use queue_manager::select::parse_selection;
use queue_manager::select::select_queue;
use queue_manager::text::i64_dec_string;
use queue_manager::text::string_from_chars;
use queue_manager::text::u64_dec_string;

fn sample_entry() -> PlaylistEntry {
    PlaylistEntry {
        owner_id: String::from("100"),
        guild_id: String::from("42"),
        url: String::from("https://example.invalid/watch?v=abc"),
        title: String::from("A Song"),
        id: String::from("abc"),
        duration: 215,
        encoding: String::from("opus"),
    }
}

fn sample_json() -> String {
    String::from(
        "{\"ownerId\":\"100\",\"guildId\":\"42\",\"url\":\"https://example.invalid/watch?v=abc\",\"title\":\"A Song\",\"id\":\"abc\",\"duration\":215,\"encoding\":\"opus\"}",
    )
}

#[test]
fn discovery_matches_only_queue_keys() {
    let keys = vec![
        String::from("cardinal.42.music_queue"),
        String::from("unrelated.key"),
        String::from("cardinal..music_queue"),
        String::from("cardinal.42.music_queueX"),
        String::from("Xcardinal.42.music_queue"),
        String::from("cardinal.007.music_queue"),
        String::from("cardinal.music_queue"),
    ];
    let found = discover_queue_keys(&keys);
    assert_eq!(found.len(), 2);
    assert_eq!(found[0].full_key, "cardinal.42.music_queue");
    assert_eq!(found[0].extracted_id, "42");
    assert_eq!(found[1].full_key, "cardinal.007.music_queue");
    assert_eq!(found[1].extracted_id, "007");
}

#[test]
fn discovery_agrees_with_reference_pattern() {
    let re = regex::Regex::new(r"^cardinal\.(\d+)\.music_queue$").unwrap();
    let candidates = vec![
        String::from("cardinal.42.music_queue"),
        String::from("cardinal.1.music_queue"),
        String::from("cardinal..music_queue"),
        String::from("cardinal.4a2.music_queue"),
        String::from("unrelated.key"),
        String::from("cardinal.42.music_queue "),
        String::from(""),
        String::from("cardinal.1234567890123456789012.music_queue"),
    ];
    for c in candidates.iter() {
        let ours = match_queue_key(c.as_str());
        match re.captures(c) {
            Some(caps) => {
                let k = ours.expect("key should match");
                assert_eq!(&k.full_key, c);
                assert_eq!(k.extracted_id, caps.get(1).unwrap().as_str());
            }
            None => {
                assert!(ours.is_none());
            }
        }
    }
}

#[test]
fn empty_keyspace_discovers_nothing_and_selects_nothing() {
    let found = discover_queue_keys(&Vec::new());
    assert_eq!(found.len(), 0);
    assert_eq!(menu_lines(&found).len(), 0);
    assert!(select_queue(&found, "1\n").is_none());
}

fn three_queues() -> Vec<QueueKey> {
    let keys = vec![
        String::from("cardinal.10.music_queue"),
        String::from("cardinal.20.music_queue"),
        String::from("cardinal.30.music_queue"),
    ];
    discover_queue_keys(&keys)
}

#[test]
fn selector_accepts_exactly_one_to_n() {
    let qs = three_queues();
    assert_eq!(
        select_queue(&qs, "1\n").as_deref(),
        Some("cardinal.10.music_queue")
    );
    assert_eq!(
        select_queue(&qs, "2\n").as_deref(),
        Some("cardinal.20.music_queue")
    );
    assert_eq!(
        select_queue(&qs, "3\n").as_deref(),
        Some("cardinal.30.music_queue")
    );
    assert!(select_queue(&qs, "0\n").is_none());
    assert!(select_queue(&qs, "-1\n").is_none());
    assert!(select_queue(&qs, "4\n").is_none());
    assert!(select_queue(&qs, "abc\n").is_none());
    assert!(select_queue(&qs, "").is_none());
    assert!(select_queue(&qs, "3.5\n").is_none());
    assert!(select_queue(&qs, "99999999999999999999999999\n").is_none());
}

#[test]
fn selector_tolerates_surrounding_whitespace_and_plus_sign() {
    let qs = three_queues();
    assert_eq!(
        select_queue(&qs, " 2 \r\n").as_deref(),
        Some("cardinal.20.music_queue")
    );
    assert_eq!(
        select_queue(&qs, "+2\n").as_deref(),
        Some("cardinal.20.music_queue")
    );
    assert!(select_queue(&qs, "+\n").is_none());
    assert!(select_queue(&qs, "-\n").is_none());
}

#[test]
fn selector_maps_one_based_to_zero_based_in_order() {
    let qs = three_queues();
    for k in 1..=3usize {
        let got = select_queue(&qs, &format!("{}\n", k)).unwrap();
        assert_eq!(got, qs[k - 1].full_key);
    }
}

#[test]
fn menu_lines_number_from_one() {
    let qs = three_queues();
    let lines = menu_lines(&qs);
    assert_eq!(lines, vec!["1: 10", "2: 20", "3: 30"]);
}

#[test]
fn entry_round_trips_through_json() {
    let e = sample_entry();
    let json = entry_to_json(&e);
    assert_eq!(json, sample_json());
    let back = entry_from_json(&json).expect("round trip should decode");
    assert_eq!(back.owner_id, e.owner_id);
    assert_eq!(back.guild_id, e.guild_id);
    assert_eq!(back.url, e.url);
    assert_eq!(back.title, e.title);
    assert_eq!(back.id, e.id);
    assert_eq!(back.duration, e.duration);
    assert_eq!(back.encoding, e.encoding);
}

#[test]
fn entry_round_trips_with_escapes_and_negative_duration() {
    let e = PlaylistEntry {
        owner_id: String::from(""),
        guild_id: String::from("0"),
        url: String::from("a\\b\"c"),
        title: String::from("line\nbreak\ttab\rret"),
        id: String::from("x"),
        duration: -2147483648,
        encoding: String::from("pcm"),
    };
    let json = entry_to_json(&e);
    let back = entry_from_json(&json).expect("escaped round trip should decode");
    assert_eq!(back.owner_id, e.owner_id);
    assert_eq!(back.guild_id, e.guild_id);
    assert_eq!(back.url, e.url);
    assert_eq!(back.title, e.title);
    assert_eq!(back.id, e.id);
    assert_eq!(back.duration, e.duration);
    assert_eq!(back.encoding, e.encoding);
}

#[test]
fn serialized_entry_is_valid_json_for_reference_parser() {
    let e = sample_entry();
    let json = entry_to_json(&e);
    let v: serde_json::Value = serde_json::from_str(&json).expect("reference parser accepts");
    assert_eq!(v.get("ownerId").unwrap().as_str().unwrap(), "100");
    assert_eq!(v.get("guildId").unwrap().as_str().unwrap(), "42");
    assert_eq!(v.get("title").unwrap().as_str().unwrap(), "A Song");
    assert_eq!(v.get("duration").unwrap().as_i64().unwrap(), 215);
    assert_eq!(v.get("encoding").unwrap().as_str().unwrap(), "opus");
    assert_eq!(v.as_object().unwrap().len(), 7);
}

#[test]
fn reference_serializer_output_decodes() {
    let mut map = serde_json::Map::new();
    map.insert(
        String::from("ownerId"),
        serde_json::Value::String(String::from("7")),
    );
    map.insert(
        String::from("guildId"),
        serde_json::Value::String(String::from("8")),
    );
    map.insert(
        String::from("url"),
        serde_json::Value::String(String::from("u")),
    );
    map.insert(
        String::from("title"),
        serde_json::Value::String(String::from("t")),
    );
    map.insert(
        String::from("id"),
        serde_json::Value::String(String::from("i")),
    );
    map.insert(
        String::from("duration"),
        serde_json::Value::Number(serde_json::Number::from(9)),
    );
    map.insert(
        String::from("encoding"),
        serde_json::Value::String(String::from("e")),
    );
    let text = serde_json::to_string(&serde_json::Value::Object(map)).unwrap();
    let e = entry_from_json(&text).expect("reference output should decode");
    assert_eq!(e.owner_id, "7");
    assert_eq!(e.guild_id, "8");
    assert_eq!(e.url, "u");
    assert_eq!(e.title, "t");
    assert_eq!(e.id, "i");
    assert_eq!(e.duration, 9);
    assert_eq!(e.encoding, "e");
}

#[test]
fn entry_decoding_accepts_any_field_order_and_whitespace() {
    let text = " { \"duration\" : 5 , \"encoding\" : \"e\" , \"id\" : \"i\" , \"title\" : \"t\" , \"url\" : \"u\" , \"guildId\" : \"g\" , \"ownerId\" : \"o\" } ";
    let e = entry_from_json(text).expect("reordered object should decode");
    assert_eq!(e.owner_id, "o");
    assert_eq!(e.duration, 5);
}

#[test]
fn entry_decoding_rejects_malformed_elements() {
    // missing duration
    assert!(entry_from_json(
        "{\"ownerId\":\"1\",\"guildId\":\"2\",\"url\":\"u\",\"title\":\"t\",\"id\":\"i\",\"encoding\":\"e\"}"
    )
    .is_none());
    // wrongly typed duration
    assert!(entry_from_json(
        "{\"ownerId\":\"1\",\"guildId\":\"2\",\"url\":\"u\",\"title\":\"t\",\"id\":\"i\",\"duration\":\"3\",\"encoding\":\"e\"}"
    )
    .is_none());
    // duration out of 32-bit range
    assert!(entry_from_json(
        "{\"ownerId\":\"1\",\"guildId\":\"2\",\"url\":\"u\",\"title\":\"t\",\"id\":\"i\",\"duration\":2147483648,\"encoding\":\"e\"}"
    )
    .is_none());
    // duplicated field
    assert!(entry_from_json(
        "{\"ownerId\":\"1\",\"ownerId\":\"1\",\"guildId\":\"2\",\"url\":\"u\",\"title\":\"t\",\"id\":\"i\",\"duration\":3,\"encoding\":\"e\"}"
    )
    .is_none());
    // unknown extra field
    assert!(entry_from_json(
        "{\"ownerId\":\"1\",\"guildId\":\"2\",\"url\":\"u\",\"title\":\"t\",\"id\":\"i\",\"duration\":3,\"encoding\":\"e\",\"extra\":1}"
    )
    .is_none());
    // not an object
    assert!(entry_from_json("42").is_none());
    assert!(entry_from_json("").is_none());
    // trailing garbage
    assert!(entry_from_json(&format!("{}x", sample_json())).is_none());
}

#[test]
fn renderer_block_shows_all_seven_fields() {
    let e = PlaylistEntry {
        owner_id: String::from("1"),
        guild_id: String::from("2"),
        url: String::from("u"),
        title: String::from("t"),
        id: String::from("i"),
        duration: 3,
        encoding: String::from("e"),
    };
    let block = render_entry(&e);
    assert_eq!(
        block,
        "PlaylistEntry {\n  ownerId: \"1\"\n  guildId: \"2\"\n  url: \"u\"\n  title: \"t\"\n  id: \"i\"\n  duration: 3\n  encoding: \"e\"\n}"
    );
}

#[test]
fn renderer_prints_one_block_per_element_in_store_order() {
    let elems = vec![sample_json(), sample_json()];
    let (lines, bad) = render_queue(&elems);
    assert!(bad.is_none());
    assert_eq!(lines.len(), 2);
    assert!(lines[0].starts_with("0 - PlaylistEntry {"));
    assert!(lines[1].starts_with("1 - PlaylistEntry {"));
    assert_eq!(lrange_bounds(2), (0, 2));
}

#[test]
fn renderer_stops_at_first_malformed_element() {
    let bad_elem = String::from(
        "{\"ownerId\":\"1\",\"guildId\":\"2\",\"url\":\"u\",\"title\":\"t\",\"id\":\"i\",\"encoding\":\"e\"}",
    );
    let (lines, bad) = render_queue(&vec![bad_elem.clone()]);
    assert_eq!(lines.len(), 0);
    assert_eq!(bad, Some(0));
    let (lines2, bad2) = render_queue(&vec![sample_json(), bad_elem]);
    assert_eq!(lines2.len(), 1);
    assert_eq!(bad2, Some(1));
}

#[test]
fn end_to_end_discover_select_render() {
    let keys = vec![
        String::from("cardinal.42.music_queue"),
        String::from("unrelated.key"),
    ];
    let found = discover_queue_keys(&keys);
    assert_eq!(found.len(), 1);
    assert_eq!(found[0].full_key, "cardinal.42.music_queue");
    assert_eq!(found[0].extracted_id, "42");
    assert_eq!(menu_lines(&found), vec!["1: 42"]);
    let selected = select_queue(&found, "1\n").expect("selection 1 is valid");
    assert_eq!(selected, "cardinal.42.music_queue");
    let elems = vec![
        String::from(
            "{\"ownerId\":\"100\",\"guildId\":\"42\",\"url\":\"u1\",\"title\":\"first\",\"id\":\"a\",\"duration\":10,\"encoding\":\"opus\"}",
        ),
        String::from(
            "{\"ownerId\":\"101\",\"guildId\":\"42\",\"url\":\"u2\",\"title\":\"second\",\"id\":\"b\",\"duration\":20,\"encoding\":\"opus\"}",
        ),
    ];
    let (lines, bad) = render_queue(&elems);
    assert!(bad.is_none());
    assert_eq!(lines.len(), 2);
    assert!(lines[0].starts_with("0 - "));
    assert!(lines[0].contains("title: \"first\""));
    assert!(lines[0].contains("duration: 10"));
    assert!(lines[1].starts_with("1 - "));
    assert!(lines[1].contains("title: \"second\""));
    assert!(lines[1].contains("duration: 20"));
}

#[test]
fn decimal_rendering_is_exact() {
    assert_eq!(u64_dec_string(0), "0");
    assert_eq!(u64_dec_string(9), "9");
    assert_eq!(u64_dec_string(10), "10");
    assert_eq!(u64_dec_string(90210), "90210");
    assert_eq!(i64_dec_string(-1), "-1");
    assert_eq!(i64_dec_string(-2147483648), "-2147483648");
    assert_eq!(i64_dec_string(i64::MIN), "-9223372036854775808");
    assert_eq!(i64_dec_string(i64::MAX), "9223372036854775807");
}

#[test]
fn string_from_chars_builds_exact_text() {
    let v = vec!['a', 'b', 'c', '\u{00e9}'];
    assert_eq!(string_from_chars(&v), "abc\u{00e9}");
    assert_eq!(string_from_chars(&Vec::new()), "");
}

#[test]
fn selection_value_parses_exactly() {
    assert_eq!(parse_selection(" 42 \n"), Some(42));
    assert_eq!(parse_selection("-7\n"), Some(-7));
    assert_eq!(parse_selection("+7\n"), Some(7));
    assert_eq!(parse_selection("0"), Some(0));
    assert_eq!(parse_selection("abc"), None);
    assert_eq!(parse_selection(""), None);
    assert_eq!(parse_selection("3.5"), None);
    assert_eq!(parse_selection("9223372036854775807"), Some(i64::MAX));
    assert_eq!(parse_selection("-9223372036854775808"), Some(i64::MIN));
    assert_eq!(parse_selection("9223372036854775808"), None);
    assert_eq!(parse_selection("-9223372036854775809"), None);
}
