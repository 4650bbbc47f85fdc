use emmuoviti_app::codec::{decode_pois, encode_pois};
use emmuoviti_app::poi::Poi;

fn sample() -> Poi {
    Poi {
        id: 1,
        name: b"Duomo".to_vec(),
        category_id: 1,
        address_id: 1,
        latitude: b"45.46".to_vec(),
        longitude: b"9.19".to_vec(),
        slug: b"duomo".to_vec(),
        created_at: b"t".to_vec(),
        updated_at: b"t".to_vec(),
    }
}

#[test]
fn decode_preserves_every_field_verbatim() {
    let body = br#"[{"id":1,"name":"Duomo","category_id":1,"address_id":1,"latitude":45.46,"longitude":9.19,"slug":"duomo","created_at":"t","updated_at":"t"}]"#;
    let pois = decode_pois(&body.to_vec()).unwrap();
    assert_eq!(pois.len(), 1);
    assert_eq!(pois[0], sample());
}

#[test]
fn decode_of_encode_is_identity() {
    let page = vec![
        sample(),
        Poi {
            id: -42,
            name: b"quote \" backslash \\ tab \t".to_vec(),
            category_id: 0,
            address_id: 2147483647,
            latitude: b"-12.5e-3".to_vec(),
            longitude: b"0".to_vec(),
            slug: b"s/l/u/g".to_vec(),
            created_at: b"2024-01-01T00:00:00Z".to_vec(),
            updated_at: b"2024-01-02T00:00:00Z".to_vec(),
        },
    ];
    let encoded = encode_pois(&page);
    let decoded = decode_pois(&encoded).unwrap();
    assert_eq!(decoded, page);
}

#[test]
fn decode_of_encode_is_identity_for_empty_page() {
    let encoded = encode_pois(&Vec::new());
    assert_eq!(encoded, b"[]".to_vec());
    assert_eq!(decode_pois(&encoded).unwrap(), Vec::<Poi>::new());
}

#[test]
fn decode_accepts_whitespace_and_reordered_members() {
    let body = b" [ { \"name\" : \"Duomo\" ,\n\t\"id\": 1, \"latitude\": 45.46, \"longitude\": 9.19, \"category_id\": 1, \"address_id\": 1, \"slug\": \"duomo\", \"updated_at\": \"t\", \"created_at\": \"t\" } ] ";
    let pois = decode_pois(&body.to_vec()).unwrap();
    assert_eq!(pois.len(), 1);
    assert_eq!(pois[0], sample());
}

#[test]
fn decode_handles_string_escapes() {
    let body = br#"[{"id":1,"name":"a\"b\\c\/d\ne","category_id":1,"address_id":1,"latitude":1,"longitude":2,"slug":"s","created_at":"t","updated_at":"t"}]"#;
    let pois = decode_pois(&body.to_vec()).unwrap();
    assert_eq!(pois[0].name, b"a\"b\\c/d\ne".to_vec());
}

#[test]
fn decode_rejects_malformed_bodies() {
    let cases: Vec<&[u8]> = vec![
        b"",
        b"not json",
        b"{}",
        b"[",
        b"[{]",
        // a member is missing
        br#"[{"id":1,"name":"x","category_id":1,"address_id":1,"latitude":1,"longitude":2,"slug":"s","created_at":"t"}]"#,
        // a member appears twice
        br#"[{"id":1,"id":2,"name":"x","category_id":1,"address_id":1,"latitude":1,"longitude":2,"slug":"s","created_at":"t","updated_at":"t"}]"#,
        // an unknown member holding a malformed value
        br#"[{"id":1,"name":"x","category_id":1,"address_id":1,"latitude":1,"longitude":2,"slug":"s","created_at":"t","updated_at":"t","extra":nope}]"#,
        // an id out of i32 range
        br#"[{"id":2147483648,"name":"x","category_id":1,"address_id":1,"latitude":1,"longitude":2,"slug":"s","created_at":"t","updated_at":"t"}]"#,
        // a fractional id
        br#"[{"id":1.5,"name":"x","category_id":1,"address_id":1,"latitude":1,"longitude":2,"slug":"s","created_at":"t","updated_at":"t"}]"#,
        // a leading zero
        br#"[{"id":01,"name":"x","category_id":1,"address_id":1,"latitude":1,"longitude":2,"slug":"s","created_at":"t","updated_at":"t"}]"#,
        // trailing garbage
        br#"[{"id":1,"name":"x","category_id":1,"address_id":1,"latitude":1,"longitude":2,"slug":"s","created_at":"t","updated_at":"t"}]x"#,
    ];
    for body in cases {
        assert!(decode_pois(&body.to_vec()).is_err(), "accepted: {:?}", body);
    }
}

#[test]
fn decode_ignores_unknown_members() {
    // serde-style tolerance: members this format does not know are read
    // and dropped, whatever well-formed value they hold
    let body = br#"[{"id":1,"extra":{"a":[1,"x",null,true,false],"b":{}},"name":"Duomo","category_id":1,"address_id":1,"latitude":45.46,"longitude":9.19,"slug":"duomo","created_at":"t","more":-1.5e3,"updated_at":"t"}]"#;
    let pois = decode_pois(&body.to_vec()).unwrap();
    assert_eq!(pois.len(), 1);
    assert_eq!(pois[0], sample());
}

#[test]
fn decode_handles_unicode_escapes() {
    // a \u escape anywhere, keys included, decodes as UTF-16 asks:
    // the key "id" written with an escape, a two-byte char, a surrogate pair
    let body = br#"[{"\u0069d":1,"name":"Duomo \u00e9 \uD83D\uDE00","category_id":1,"address_id":1,"latitude":45.46,"longitude":9.19,"slug":"duomo","created_at":"t","updated_at":"t"}]"#;
    let pois = decode_pois(&body.to_vec()).unwrap();
    assert_eq!(pois[0].name, "Duomo \u{e9} \u{1F600}".as_bytes().to_vec());
    assert_eq!(pois[0].id, 1);
}

#[test]
fn decode_rejects_bad_unicode_escapes_and_invalid_utf8() {
    // a lone surrogate half
    let lone = br#"[{"id":1,"name":"\uD83D","category_id":1,"address_id":1,"latitude":1,"longitude":2,"slug":"s","created_at":"t","updated_at":"t"}]"#;
    assert!(decode_pois(&lone.to_vec()).is_err());
    // an escape with too few hex digits
    let short = br#"[{"id":1,"name":"\u00","category_id":1,"address_id":1,"latitude":1,"longitude":2,"slug":"s","created_at":"t","updated_at":"t"}]"#;
    assert!(decode_pois(&short.to_vec()).is_err());
    // a string holding a byte that no UTF-8 text contains
    let mut raw =
        br#"[{"id":1,"name":""#.to_vec();
    raw.push(0xFF);
    raw.extend_from_slice(
        br#"","category_id":1,"address_id":1,"latitude":1,"longitude":2,"slug":"s","created_at":"t","updated_at":"t"}]"#,
    );
    assert!(decode_pois(&raw).is_err());
    // a multi-byte sequence cut short
    let mut cut = br#"[{"id":1,"name":""#.to_vec();
    cut.push(0xC3);
    cut.extend_from_slice(
        br#"x","category_id":1,"address_id":1,"latitude":1,"longitude":2,"slug":"s","created_at":"t","updated_at":"t"}]"#,
    );
    assert!(decode_pois(&cut).is_err());
}

#[test]
fn decode_accepts_multibyte_text() {
    let body = "[{\"id\":1,\"name\":\"Sirtori è 😀\",\"category_id\":1,\"address_id\":1,\"latitude\":1,\"longitude\":2,\"slug\":\"s\",\"created_at\":\"t\",\"updated_at\":\"t\"}]";
    let pois = decode_pois(&body.as_bytes().to_vec()).unwrap();
    assert_eq!(pois[0].name, "Sirtori è 😀".as_bytes().to_vec());
}

#[test]
fn decode_accepts_extreme_ids_and_numbers() {
    let body = br#"[{"id":-2147483648,"name":"x","category_id":2147483647,"address_id":0,"latitude":-0.5E+10,"longitude":1e2,"slug":"s","created_at":"t","updated_at":"t"}]"#;
    let pois = decode_pois(&body.to_vec()).unwrap();
    assert_eq!(pois[0].id, -2147483648);
    assert_eq!(pois[0].category_id, 2147483647);
    assert_eq!(pois[0].latitude, b"-0.5E+10".to_vec());
    assert_eq!(pois[0].longitude, b"1e2".to_vec());
    let encoded = encode_pois(&pois);
    assert_eq!(decode_pois(&encoded).unwrap(), pois);
}
