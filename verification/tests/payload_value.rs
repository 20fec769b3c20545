use socketioxide::payload_value::PayloadValue;

const BINARY_PAYLOAD: &[u8] = &[1, 2, 3, 4, 5, 6, 7];
const MORE_BINARY_PAYLOAD: &[u8] = &[10, 9, 8, 7, 6, 5];

fn member(k: &str, v: PayloadValue) -> (String, PayloadValue) {
    (k.to_string(), v)
}

fn build_test_payload_value(fill_options: bool, fill_binary_data: bool) -> PayloadValue {
    let bin = |b: &[u8]| if fill_binary_data { b.to_vec() } else { Vec::new() };
    let opt = |v: PayloadValue| if fill_options { v } else { PayloadValue::Null };
    PayloadValue::Object(vec![
        member("uint", PayloadValue::Number("42".to_string())),
        member("float", PayloadValue::Number("1.75".to_string())),
        member("binary", PayloadValue::Binary(0, bin(BINARY_PAYLOAD))),
        member("string", PayloadValue::String("test string".to_string())),
        member("boolean", PayloadValue::Bool(true)),
        member(
            "array",
            PayloadValue::Array(
                ["one", "two", "three"].into_iter().map(|s| PayloadValue::String(s.to_string())).collect(),
            ),
        ),
        member(
            "sub_payload",
            PayloadValue::Object(vec![
                member("more_binary", PayloadValue::Binary(1, bin(MORE_BINARY_PAYLOAD))),
                member("opt_int", opt(PayloadValue::Number("99".to_string()))),
                member("opt_float", opt(PayloadValue::Number("2.5".to_string()))),
                member("opt_string", opt(PayloadValue::String("another test string".to_string()))),
                member("opt_boolean", opt(PayloadValue::Bool(true))),
            ]),
        ),
    ])
}

#[test]
fn test_count_payloads() {
    let payload_value = build_test_payload_value(true, false);
    assert_eq!(payload_value.count_payloads(), 2);
}

#[test]
fn test_extract_binary_payloads() {
    let payload_value = build_test_payload_value(true, true);
    let bins = payload_value.get_binary_payloads();

    assert_eq!(bins.len(), 2);
    assert_eq!(bins[0], BINARY_PAYLOAD);
    assert_eq!(bins[1], MORE_BINARY_PAYLOAD);
}

#[test]
fn binary_payloads_come_in_order_of_number() {
    let v = PayloadValue::Array(vec![
        PayloadValue::Binary(2, vec![2]),
        PayloadValue::Object(vec![member("a", PayloadValue::Binary(0, vec![0]))]),
        PayloadValue::Binary(1, vec![1]),
        PayloadValue::Binary(1, vec![11]),
    ]);
    assert_eq!(v.get_binary_payloads(), vec![vec![0], vec![1], vec![11], vec![2]]);
    assert_eq!(v.count_payloads(), 4);
    assert!(v.has_binary());
}

#[test]
fn values_without_binary() {
    let v = PayloadValue::Array(vec![PayloadValue::Null, PayloadValue::Object(vec![member("b", PayloadValue::Bool(false))])]);
    assert!(!v.has_binary());
    assert_eq!(v.count_payloads(), 0);
    assert!(v.get_binary_payloads().is_empty());
    assert_eq!(PayloadValue::Bool(true).as_bool(), Some(true));
    assert_eq!(PayloadValue::Null.as_bool(), None);
    assert_eq!(PayloadValue::String("x".to_string()).as_str(), Some("x"));
    assert_eq!(PayloadValue::Bool(true).as_str(), None);
}

#[test]
fn as_u64_reads_unsigned_integers_only() {
    let n = |t: &str| PayloadValue::Number(t.to_string());
    assert_eq!(n("42").as_u64(), Some(42));
    assert_eq!(n("0").as_u64(), Some(0));
    assert_eq!(n("18446744073709551615").as_u64(), Some(u64::MAX));
    assert_eq!(n("18446744073709551616").as_u64(), None);
    assert_eq!(n("-1").as_u64(), None);
    assert_eq!(n("1.75").as_u64(), None);
    assert_eq!(n("1e3").as_u64(), None);
    assert_eq!(n("007").as_u64(), None);
    assert_eq!(PayloadValue::String("42".to_string()).as_u64(), None);
    assert_eq!(PayloadValue::Bool(true).as_u64(), None);
}

#[test]
fn json_text_writes_placeholders_for_binaries() {
    let value = build_test_payload_value(true, true);
    assert_eq!(
        value.to_json_string().unwrap(),
        "{\"uint\":42,\"float\":1.75,\"binary\":{\"_placeholder\":true,\"num\":0},\
         \"string\":\"test string\",\"boolean\":true,\"array\":[\"one\",\"two\",\"three\"],\
         \"sub_payload\":{\"more_binary\":{\"_placeholder\":true,\"num\":1},\"opt_int\":99,\
         \"opt_float\":2.5,\"opt_string\":\"another test string\",\"opt_boolean\":true}}"
    );
}

#[test]
fn json_text_of_scalars_and_empty_containers() {
    assert_eq!(PayloadValue::Null.to_json_string().unwrap(), "null");
    assert_eq!(PayloadValue::Bool(false).to_json_string().unwrap(), "false");
    assert_eq!(PayloadValue::String("a\"b\n".to_string()).to_json_string().unwrap(), "\"a\\\"b\\n\"");
    assert_eq!(PayloadValue::Array(vec![]).to_json_string().unwrap(), "[]");
    assert_eq!(PayloadValue::Object(vec![]).to_json_string().unwrap(), "{}");
    assert_eq!(PayloadValue::Number("1E2".to_string()).to_json_string().unwrap(), "100.0");
}

#[test]
fn json_text_refuses_a_number_that_is_not_json() {
    let bad = PayloadValue::Array(vec![PayloadValue::Null, PayloadValue::Number("12abc".to_string())]);
    assert_eq!(bad.to_json_string(), None);
    assert_eq!(PayloadValue::Number(" 1".to_string()).to_json_string(), None);
}

#[test]
fn binary_payloads_match_has_binary_and_count() {
    for (options, bins) in [(true, true), (true, false), (false, true), (false, false)] {
        let v = build_test_payload_value(options, bins);
        let found = v.get_binary_payloads();
        assert_eq!(found.len(), v.count_payloads());
        assert_eq!(v.has_binary(), !found.is_empty());
    }
    let plain = PayloadValue::Array(vec![PayloadValue::Null, PayloadValue::Bool(true)]);
    assert!(plain.get_binary_payloads().is_empty());
    assert!(!plain.has_binary());
}

#[test]
fn placeholder_objects_become_binaries() {
    let m = |k: &str, v: PayloadValue| (k.to_string(), v);
    let ph = PayloadValue::from_members(vec![
        m("_placeholder", PayloadValue::Bool(true)),
        m("num", PayloadValue::Number("3".to_string())),
    ]);
    assert!(matches!(ph, PayloadValue::Binary(3, ref b) if b.is_empty()));
    let ph = PayloadValue::from_members(vec![
        m("num", PayloadValue::Number("0".to_string())),
        m("_placeholder", PayloadValue::Bool(true)),
    ]);
    assert!(matches!(ph, PayloadValue::Binary(0, _)));
    // not a placeholder: false flag, a float number, a third member
    for members in [
        vec![m("_placeholder", PayloadValue::Bool(false)), m("num", PayloadValue::Number("3".to_string()))],
        vec![m("_placeholder", PayloadValue::Bool(true)), m("num", PayloadValue::Number("3.5".to_string()))],
        vec![
            m("_placeholder", PayloadValue::Bool(true)),
            m("num", PayloadValue::Number("3".to_string())),
            m("x", PayloadValue::Null),
        ],
    ] {
        let n = members.len();
        assert!(matches!(PayloadValue::from_members(members), PayloadValue::Object(ref o) if o.len() == n));
    }
}
