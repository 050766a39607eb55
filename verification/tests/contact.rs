use contacts::json::Value;
use contacts::{to_json, Contact, Decimal};

fn contact(id: i64, name: &str, latitude: f64, longitude: f64) -> Contact {
    Contact {
        contact_id: id,
        display_name: String::from(name),
        address: String::from("500 Market St"),
        city: String::from("Camden"),
        state: String::from("NJ"),
        zip_code: String::from("08102"),
        capacity: 300,
        latitude: Decimal::parse(&serde_json::to_string(&latitude).unwrap()).unwrap(),
        longitude: Decimal::parse(&serde_json::to_string(&longitude).unwrap()).unwrap(),
        email: String::from("desk@example.org"),
        contact_form: String::from("phone"),
        age_range: String::from("all"),
    }
}

#[test]
fn no_rows_give_an_empty_array() {
    assert_eq!(to_json(&[]), b"[]".to_vec());
}

#[test]
fn one_row_gives_one_object() {
    let body = to_json(&[contact(1, "Acme", 40.0, -75.0)]);
    assert_eq!(
        String::from_utf8(body).unwrap(),
        "[{\"contact_id\":1,\"display_name\":\"Acme\",\"address\":\"500 Market St\",\
         \"city\":\"Camden\",\"state\":\"NJ\",\"zip_code\":\"08102\",\"capacity\":300,\
         \"latitude\":40.0,\"longitude\":-75.0,\"email\":\"desk@example.org\",\
         \"contact_form\":\"phone\",\"age_range\":\"all\"}]"
    );
}

#[test]
fn two_rows_are_separated_by_one_comma() {
    let body = to_json(&[contact(1, "A", 1.5, 2.5), contact(2, "B", -1.5, -2.5)]);
    let text = String::from_utf8(body).unwrap();
    assert!(text.starts_with("[{\"contact_id\":1,"));
    assert!(text.ends_with("\"age_range\":\"all\"}]"));
    assert_eq!(text.matches("},{").count(), 1);
    assert!(text.contains("\"age_range\":\"all\"},{\"contact_id\":2,"));
}

#[test]
fn fields_come_in_the_order_of_the_columns() {
    let row = contact(9, "Order", 0.25, 0.75);
    let names: Vec<&str> = row.fields().iter().map(|field| field.name).collect();
    assert_eq!(
        names,
        vec![
            "contact_id", "display_name", "address", "city", "state", "zip_code", "capacity",
            "latitude", "longitude", "email", "contact_form", "age_range",
        ]
    );
}

#[test]
fn document_reads_back_as_the_rows() {
    let mut rows = Vec::new();
    for id in 0..40i64 {
        let mut row = contact(
            id * 1_000_000_007 - 20_000_000_000,
            &format!("Name \"{}\"\n\\", id),
            (id as f64) * 4.5 - 90.0,
            (id as f64) * -9.0125 + 180.0,
        );
        row.capacity = -id;
        row.address = format!("{} Main St\u{1f}\u{7f}\u{e9}", id);
        rows.push(row);
    }
    let document: serde_json::Value = serde_json::from_slice(&to_json(&rows)).unwrap();
    let elements = document.as_array().unwrap();
    assert_eq!(elements.len(), 40);
    for (element, row) in elements.iter().zip(rows.iter()) {
        let object = element.as_object().unwrap();
        assert_eq!(object.len(), 12);
        assert_eq!(object["contact_id"].as_i64(), Some(row.contact_id));
        assert_eq!(object["display_name"].as_str(), Some(row.display_name.as_str()));
        assert_eq!(object["address"].as_str(), Some(row.address.as_str()));
        assert_eq!(object["city"].as_str(), Some("Camden"));
        assert_eq!(object["state"].as_str(), Some("NJ"));
        assert_eq!(object["zip_code"].as_str(), Some("08102"));
        assert_eq!(object["capacity"].as_i64(), Some(row.capacity));
        let latitude = row.latitude.as_str().parse::<f64>().unwrap();
        let longitude = row.longitude.as_str().parse::<f64>().unwrap();
        assert!(object["latitude"].is_number());
        assert!(object["longitude"].is_number());
        assert!((object["latitude"].as_f64().unwrap() - latitude).abs() < 1e-9);
        assert!((object["longitude"].as_f64().unwrap() - longitude).abs() < 1e-9);
        assert_eq!(object["email"].as_str(), Some("desk@example.org"));
        assert_eq!(object["contact_form"].as_str(), Some("phone"));
        assert_eq!(object["age_range"].as_str(), Some("all"));
    }
}

#[test]
fn coordinates_are_written_digit_for_digit() {
    for (latitude, longitude) in [(39.9526f64, -75.1652f64), (125.92500000000001, 1e-7)] {
        let row = contact(1, "Exact", latitude, longitude);
        assert_eq!(row.latitude.as_str().parse::<f64>().unwrap(), latitude);
        assert_eq!(row.longitude.as_str().parse::<f64>().unwrap(), longitude);
        let text = String::from_utf8(to_json(&[row.clone()])).unwrap();
        assert!(text.contains(&format!(
            "\"latitude\":{},\"longitude\":{},",
            row.latitude.as_str(),
            row.longitude.as_str()
        )));
    }
}

#[test]
fn large_table_is_written_whole() {
    let rows: Vec<Contact> =
        (0..5000i64).map(|id| contact(id, "Bulk", 10.5, 20.25)).collect();
    let body = to_json(&rows);
    let document: serde_json::Value = serde_json::from_slice(&body).unwrap();
    let elements = document.as_array().unwrap();
    assert_eq!(elements.len(), 5000);
    assert_eq!(elements[0]["contact_id"].as_i64(), Some(0));
    assert_eq!(elements[4999]["contact_id"].as_i64(), Some(4999));
}

#[test]
fn fields_hold_the_values_of_the_row() {
    let row = contact(77, "Values", 1.25, -2.5);
    let fields = row.fields();
    assert_eq!(fields.len(), 12);
    assert!(matches!(fields[0].value, Value::Integer(77)));
    assert!(matches!(fields[1].value, Value::Text("Values")));
    assert!(matches!(fields[6].value, Value::Integer(300)));
    assert!(matches!(fields[7].value, Value::Decimal(number) if number.as_str() == "1.25"));
    assert!(matches!(fields[8].value, Value::Decimal(number) if number.as_str() == "-2.5"));
    assert!(matches!(fields[11].value, Value::Text("all")));
}

#[test]
fn document_is_utf8_text() {
    let rows = [contact(1, "caf\u{e9} \u{65e5}\u{672c} \u{1f600}", 12.5, -0.125)];
    let text = String::from_utf8(to_json(&rows)).unwrap();
    assert!(text.contains("caf\u{e9} \u{65e5}\u{672c} \u{1f600}"));
}
