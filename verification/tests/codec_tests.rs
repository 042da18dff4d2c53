use etab_projects::codec::{decode_project, encode_project};
use etab_projects::project::Project;
use etab_projects::timestamp::Timestamp;

fn sample(id: &str, name: &str, description: &str) -> Project {
    Project {
        id: id.to_string(),
        name: name.to_string(),
        description: description.to_string(),
        created_at: Timestamp {
            year: 2026,
            month: 1,
            day: 2,
            hour: 3,
            minute: 4,
            second: 5,
            nanos: 6,
        },
        updated_at: Timestamp {
            year: 2026,
            month: 12,
            day: 31,
            hour: 23,
            minute: 59,
            second: 59,
            nanos: 999_999_999,
        },
    }
}

#[test]
fn encode_produces_exact_canonical_json() {
    let p = sample("abc-123", "My Project", "Desc");
    let bytes = encode_project(&p);
    let expected = "{\n  \"created_at\": \"2026-01-02T03:04:05.000000006Z\",\n  \"description\": \"Desc\",\n  \"id\": \"abc-123\",\n  \"name\": \"My Project\",\n  \"updated_at\": \"2026-12-31T23:59:59.999999999Z\"\n}";
    assert_eq!(String::from_utf8(bytes).unwrap(), expected);
}

#[test]
fn encode_parses_as_json_with_serde() {
    let p = sample("abc", "Quote \" and \\ backslash\nnewline", "Tab\there");
    let bytes = encode_project(&p);
    let v: serde_json::Value =
        serde_json::from_slice(&bytes).expect("canonical record must be valid JSON");
    assert_eq!(v.get("id").unwrap().as_str().unwrap(), "abc");
    assert_eq!(
        v.get("name").unwrap().as_str().unwrap(),
        "Quote \" and \\ backslash\nnewline"
    );
    assert_eq!(v.get("description").unwrap().as_str().unwrap(), "Tab\there");
    assert_eq!(
        v.get("created_at").unwrap().as_str().unwrap(),
        "2026-01-02T03:04:05.000000006Z"
    );
    assert_eq!(
        v.get("updated_at").unwrap().as_str().unwrap(),
        "2026-12-31T23:59:59.999999999Z"
    );
}

#[test]
fn round_trip_preserves_all_fields() {
    let p = sample(
        "id-1",
        "Name with \"quotes\"",
        "Line\nbreak \\ and a control byte \u{1} here",
    );
    let bytes = encode_project(&p);
    let q = decode_project(&bytes).expect("round trip must decode");
    assert_eq!(q, p);
}

#[test]
fn round_trip_of_unicode_fields() {
    let p = sample("id-2", "naïve café ☕", "中文 description");
    let bytes = encode_project(&p);
    let q = decode_project(&bytes).expect("round trip must decode");
    assert_eq!(q, p);
}

#[test]
fn round_trip_of_created_project() {
    let p = Project::new("Alpha".to_string(), "First".to_string());
    let bytes = encode_project(&p);
    let q = decode_project(&bytes).expect("round trip must decode");
    assert_eq!(q.id, p.id);
    assert_eq!(q.name, p.name);
    assert_eq!(q.description, p.description);
    assert_eq!(q.created_at, p.created_at);
    assert_eq!(q.updated_at, p.updated_at);
}

#[test]
fn decode_rejects_malformed_records() {
    assert!(decode_project(&b"{}".to_vec()).is_none());
    assert!(decode_project(&Vec::new()).is_none());
    assert!(decode_project(&b"not json at all".to_vec()).is_none());
    let p = sample("x", "n", "d");
    let mut flipped = encode_project(&p);
    let last = flipped.len() - 1;
    flipped[last] = b')';
    assert!(decode_project(&flipped).is_none());
    let mut trailing = encode_project(&p);
    trailing.push(b' ');
    assert!(decode_project(&trailing).is_none());
}

#[test]
fn decode_rejects_out_of_range_dates() {
    let bad_month = "{\n  \"created_at\": \"2026-13-01T00:00:00.000000000Z\",\n  \"description\": \"d\",\n  \"id\": \"x\",\n  \"name\": \"n\",\n  \"updated_at\": \"2026-01-02T03:04:05.000000006Z\"\n}";
    assert!(decode_project(&bad_month.as_bytes().to_vec()).is_none());
    let bad_leap_day = "{\n  \"created_at\": \"2026-02-29T00:00:00.000000000Z\",\n  \"description\": \"d\",\n  \"id\": \"x\",\n  \"name\": \"n\",\n  \"updated_at\": \"2026-01-02T03:04:05.000000006Z\"\n}";
    assert!(decode_project(&bad_leap_day.as_bytes().to_vec()).is_none());
    let good_leap_day = "{\n  \"created_at\": \"2024-02-29T00:00:00.000000000Z\",\n  \"description\": \"d\",\n  \"id\": \"x\",\n  \"name\": \"n\",\n  \"updated_at\": \"2026-01-02T03:04:05.000000006Z\"\n}";
    let q = decode_project(&good_leap_day.as_bytes().to_vec()).expect("leap day of 2024 is valid");
    assert_eq!(q.created_at.year, 2024);
    assert_eq!(q.created_at.month, 2);
    assert_eq!(q.created_at.day, 29);
}
