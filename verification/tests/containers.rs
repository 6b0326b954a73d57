use server_tools::containers::container_row;

#[test]
fn long_ids_are_cut_to_twelve_characters() {
    let r = container_row(
        Some("4f2a9c0e1b7d8f6a5c3b2a19e8d7c6b5".to_string()),
        Some(vec!["/web".to_string(), "/web-alias".to_string()]),
        Some("nginx:latest".to_string()),
        Some("Up 2 hours".to_string()),
    );
    assert_eq!(r.id, "4f2a9c0e1b7d");
    assert_eq!(r.names, "/web, /web-alias");
    assert_eq!(r.image, "nginx:latest");
    assert_eq!(r.status, "Up 2 hours");
}

#[test]
fn missing_fields_show_a_dash() {
    let r = container_row(None, None, None, None);
    assert_eq!(r.id, "\u{2014}");
    assert_eq!(r.names, "\u{2014}");
    assert_eq!(r.image, "\u{2014}");
    assert_eq!(r.status, "\u{2014}");
}

#[test]
fn short_ids_and_empty_name_lists() {
    let r = container_row(Some("abc".to_string()), Some(vec![]), Some(String::new()), None);
    assert_eq!(r.id, "abc");
    assert_eq!(r.names, "");
    assert_eq!(r.image, "");
    let r = container_row(Some("0123456789ab".to_string()), Some(vec!["/x".to_string()]), None, None);
    assert_eq!(r.id, "0123456789ab");
    assert_eq!(r.names, "/x");
}
