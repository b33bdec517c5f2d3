use quil_node::schema::strip_service;

#[test]
fn a_service_is_taken_out_with_its_blocks() {
    let src = "a\nservice OnionService {\n rpc C(x) { option y = {}; }\n}\nservice B { }\n";
    assert_eq!(strip_service(src, "OnionService"), "a\n\nservice B { }\n");
    assert_eq!(strip_service(src, "B"), "a\nservice OnionService {\n rpc C(x) { option y = {}; }\n}\n\n");
}

#[test]
fn a_text_without_the_service_stays() {
    assert_eq!(strip_service("service A{}", "A"), "service A{}");
    assert_eq!(strip_service("", "A"), "");
    assert_eq!(strip_service("service A { {", "A"), "service A { {");
}

#[test]
fn only_the_first_of_a_name_goes() {
    assert_eq!(strip_service("service A {}service A {}", "A"), "service A {}");
}
