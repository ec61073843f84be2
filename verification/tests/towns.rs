use signmaker::towns::{collect_town_names, field_value, is_town_type};

fn lines(text: &[&str]) -> Vec<String> {
    text.iter().map(|s| s.to_string()).collect()
}

#[test]
fn towns_are_collected_in_order() {
    let input = lines(&[
        "class Names",
        "{",
        "\tclass Kavala",
        "\t{",
        "\t\tname=\"Kavala\";",
        "\t\tposition[]={3560.0,13724.0};",
        "\t\ttype=\"NameCityCapital\";",
        "\t};",
        "\tclass Agios",
        "\t{",
        "\t\tname=\"Agios Dionysios\";",
        "\t\ttype=\"NameCity\";",
        "\t};",
        "\tclass Hill",
        "\t{",
        "\t\tname=\"Old Hill\";",
        "\t\ttype=\"Hill\";",
        "\t};",
        "\tclass Negades",
        "\t{",
        "    name=\"Negades\";  ",
        "    type=\"namevillage\";",
        "\t};",
        "};",
    ]);
    assert_eq!(
        collect_town_names(&input),
        vec!["Agios Dionysios".to_string(), "Negades".to_string()]
    );
}

#[test]
fn type_before_any_name_gives_empty_name() {
    let input = lines(&["type=\"NAMEVILLAGE\";", "name=\"A\";", "type=\"NameCity\";"]);
    assert_eq!(collect_town_names(&input), vec![String::new(), "A".to_string()]);
}

#[test]
fn no_lines_no_towns() {
    assert_eq!(collect_town_names(&Vec::new()), Vec::<String>::new());
    assert_eq!(collect_town_names(&lines(&["", "x", "name=\"A\";"])), Vec::<String>::new());
}

#[test]
fn field_value_strips_key_and_end() {
    assert_eq!(field_value("name=\"Kavala\";", "name=\""), "Kavala");
    assert_eq!(field_value("name=\"name=\"Kavala\";\";", "name=\""), "Kavala");
    assert_eq!(field_value("xname=\"Kavala\"", "name=\""), "xname=\"Kavala\"");
    assert_eq!(field_value("", "name=\""), "");
    assert_eq!(field_value("type=\"\";", "type=\""), "");
}

#[test]
fn town_types() {
    assert!(is_town_type(&"namecity".to_string()));
    assert!(is_town_type(&"namevillage".to_string()));
    assert!(!is_town_type(&"NameCity".to_string()));
    assert!(!is_town_type(&"namecitycapital".to_string()));
    assert!(!is_town_type(&String::new()));
}
