use contacts::{
    get_contacts, query_contacts, Contact, Decimal, Level, LogEntry, MediaType, QueryFailed,
};

fn decimal(text: &str) -> Decimal {
    Decimal::parse(text).expect("a number")
}

fn acme() -> Contact {
    Contact {
        contact_id: 1,
        display_name: String::from("Acme"),
        address: String::from("1 Main St"),
        city: String::from("Philadelphia"),
        state: String::from("PA"),
        zip_code: String::from("19104"),
        capacity: 25,
        latitude: decimal(&serde_json::to_string(&40.0f64).unwrap()),
        longitude: decimal(&serde_json::to_string(&-75.0f64).unwrap()),
        email: String::from("hello@acme.example"),
        contact_form: String::from("https://acme.example/contact"),
        age_range: String::from("18-65"),
    }
}

#[test]
fn empty_table_is_an_empty_array() {
    let report = query_contacts(Ok(Vec::new()));
    assert!(report.log.is_empty());
    let response = get_contacts(report.outcome);
    assert_eq!(response.status, 200);
    assert_eq!(response.content_type, Some(MediaType::Json));
    assert_eq!(response.body, b"[]".to_vec());
}

#[test]
fn one_row_is_a_one_element_array() {
    let report = query_contacts(Ok(vec![acme()]));
    assert!(report.log.is_empty());
    assert_eq!(report.outcome, Ok(vec![acme()]));
    let response = get_contacts(report.outcome);
    assert_eq!(response.status, 200);
    let expected = "[{\"contact_id\":1,\"display_name\":\"Acme\",\"address\":\"1 Main St\",\
                    \"city\":\"Philadelphia\",\"state\":\"PA\",\"zip_code\":\"19104\",\
                    \"capacity\":25,\"latitude\":40.0,\"longitude\":-75.0,\
                    \"email\":\"hello@acme.example\",\
                    \"contact_form\":\"https://acme.example/contact\",\"age_range\":\"18-65\"}]";
    assert_eq!(String::from_utf8(response.body.clone()).unwrap(), expected);

    let document: serde_json::Value = serde_json::from_slice(&response.body).unwrap();
    let elements = document.as_array().unwrap();
    assert_eq!(elements.len(), 1);
    let element = elements[0].as_object().unwrap();
    assert_eq!(element.len(), 12);
    assert_eq!(element["contact_id"].as_i64(), Some(1));
    assert_eq!(element["display_name"].as_str(), Some("Acme"));
    assert_eq!(element["address"].as_str(), Some("1 Main St"));
    assert_eq!(element["city"].as_str(), Some("Philadelphia"));
    assert_eq!(element["state"].as_str(), Some("PA"));
    assert_eq!(element["zip_code"].as_str(), Some("19104"));
    assert_eq!(element["capacity"].as_i64(), Some(25));
    assert_eq!(element["latitude"].as_f64(), Some(40.0));
    assert_eq!(element["longitude"].as_f64(), Some(-75.0));
    assert_eq!(element["email"].as_str(), Some("hello@acme.example"));
    assert_eq!(element["contact_form"].as_str(), Some("https://acme.example/contact"));
    assert_eq!(element["age_range"].as_str(), Some("18-65"));
}

#[test]
fn unreachable_database_is_a_500_with_one_log_entry() {
    let report = query_contacts(Err(String::from("PoolTimedOut")));
    assert_eq!(report.outcome, Err(QueryFailed));
    assert_eq!(
        report.log,
        vec![LogEntry {
            level: Level::Error,
            message: String::from("Failed to execture query: PoolTimedOut"),
        }]
    );
    let response = get_contacts(report.outcome);
    assert_eq!(response.status, 500);
    assert_eq!(response.content_type, None);
    assert!(response.body.is_empty());
}

#[test]
fn failure_message_holds_the_cause() {
    let cause = "Io(Os { code: 111, kind: ConnectionRefused, message: \"Connection refused\" })";
    let report = query_contacts(Err(String::from(cause)));
    assert_eq!(report.log.len(), 1);
    assert_eq!(report.log[0].level, Level::Error);
    assert!(report.log[0].message.ends_with(cause));
    assert_eq!(report.outcome, Err(QueryFailed));
}

#[test]
fn failure_with_an_empty_detail_is_still_logged() {
    let report = query_contacts(Err(String::new()));
    assert_eq!(report.log.len(), 1);
    assert_eq!(report.log[0].message, "Failed to execture query: ");
}

#[test]
fn every_failure_answers_alike() {
    let first = get_contacts(query_contacts(Err(String::from("RowNotFound"))).outcome);
    let second = get_contacts(query_contacts(Err(String::from("PoolClosed"))).outcome);
    assert_eq!(first, second);
    assert_eq!(first.status, 500);
}

#[test]
fn same_table_gives_the_same_bytes() {
    let mut other = acme();
    other.contact_id = 2;
    other.display_name = String::from("Bolt \"& Sons\"");
    let first = get_contacts(Ok(vec![acme(), other.clone()]));
    let second = get_contacts(Ok(vec![acme(), other]));
    assert_eq!(first.status, 200);
    assert_eq!(first.body, second.body);
    assert_eq!(first, second);
}

#[test]
fn array_has_one_typed_element_for_each_row() {
    let mut rows = Vec::new();
    for id in 0..5i64 {
        let mut row = acme();
        row.contact_id = id - 2;
        row.capacity = id * 1000;
        row.display_name = format!("Line\n{}\t\"quoted\" \\ caf\u{e9} \u{1f600}", id);
        row.latitude = decimal("-0.5e-3");
        rows.push(row);
    }
    let response = get_contacts(Ok(rows.clone()));
    assert_eq!(response.status, 200);
    let document: serde_json::Value = serde_json::from_slice(&response.body).unwrap();
    let elements = document.as_array().unwrap();
    assert_eq!(elements.len(), rows.len());
    let text = [
        "display_name", "address", "city", "state", "zip_code", "email", "contact_form",
        "age_range",
    ];
    let numeric = ["contact_id", "capacity", "latitude", "longitude"];
    for (element, row) in elements.iter().zip(rows.iter()) {
        let object = element.as_object().unwrap();
        assert_eq!(object.len(), 12);
        for name in text {
            assert!(object[name].is_string(), "{}", name);
        }
        for name in numeric {
            assert!(object[name].is_number(), "{}", name);
        }
        assert_eq!(object["contact_id"].as_i64(), Some(row.contact_id));
        assert_eq!(object["capacity"].as_i64(), Some(row.capacity));
        assert_eq!(object["display_name"].as_str(), Some(row.display_name.as_str()));
        assert_eq!(object["latitude"].as_f64(), Some(-0.0005));
    }
}

#[test]
fn rows_come_out_in_the_order_they_came_in() {
    let mut rows = Vec::new();
    for id in [7i64, 3, 9, 1] {
        let mut row = acme();
        row.contact_id = id;
        rows.push(row);
    }
    let response = get_contacts(Ok(rows));
    let document: serde_json::Value = serde_json::from_slice(&response.body).unwrap();
    let ids: Vec<i64> = document
        .as_array()
        .unwrap()
        .iter()
        .map(|element| element["contact_id"].as_i64().unwrap())
        .collect();
    assert_eq!(ids, vec![7, 3, 9, 1]);
}

#[test]
fn different_tables_give_different_bytes() {
    let base = get_contacts(Ok(vec![acme()])).body;
    let mut variants = Vec::new();
    let mut row = acme();
    row.contact_id = 11;
    variants.push(vec![row]);
    let mut row = acme();
    row.capacity = 2;
    variants.push(vec![row]);
    let mut row = acme();
    row.display_name = String::from("Acme\",\"address\":\"1 Main St");
    row.address = String::new();
    variants.push(vec![row]);
    let mut row = acme();
    row.latitude = decimal("40");
    variants.push(vec![row]);
    let mut row = acme();
    row.longitude = decimal("-75.00");
    variants.push(vec![row]);
    let mut row = acme();
    row.age_range = String::from("18-65 ");
    variants.push(vec![row]);
    variants.push(vec![acme(), acme()]);
    variants.push(Vec::new());
    for rows in variants {
        assert_ne!(rows, vec![acme()]);
        assert_ne!(get_contacts(Ok(rows)).body, base);
    }
}

#[test]
fn failure_message_opens_as_the_library_says() {
    let report = query_contacts(Err(String::from("PoolClosed")));
    assert_eq!(contacts::endpoint::FAILURE_OPENING, "Failed to execture query: ");
    assert_eq!(
        report.log[0].message,
        format!("{}PoolClosed", contacts::endpoint::FAILURE_OPENING)
    );
    assert_eq!(contacts::endpoint::STATUS_OK, 200);
    assert_eq!(contacts::endpoint::STATUS_INTERNAL_SERVER_ERROR, 500);
}

#[test]
fn media_type_names_json() {
    assert_eq!(MediaType::Json.as_str(), "application/json");
}
