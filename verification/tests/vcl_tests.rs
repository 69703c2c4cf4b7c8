use vingress::vcl::{build_data_json, sort_backends, update, Backend, UpdateError, Vcl};

fn backend(ns: &str, name: &str, host: &str, path: &str, svc: &str, pt: &str, port: u16) -> Backend {
    Backend::new(
        ns.to_string(),
        name.to_string(),
        host.to_string(),
        path.to_string(),
        svc.to_string(),
        pt.to_string(),
        port,
    )
}

#[test]
fn test_vcl_load() {
    let mut v = Vcl::new(
        "default.vcl".to_string(),
        "./template/vcl.hbs".to_string(),
        ".".to_string(),
        String::default(),
        String::default(),
    );

    let mut backends: Vec<Backend> = vec![];

    let b1 = Backend::new(
        String::from("foo"),
        String::from("alpha"),
        String::from("alpha.foo.com"),
        "/".to_string(),
        String::from("service1"),
        String::from("Prefix"),
        8081,
    );
    let b2 = Backend::new(
        String::from("foo"),
        String::from("beta"),
        String::from("beta.foo.com"),
        "/foo".to_string(),
        String::from("service2"),
        String::from("Exact"),
        8082,
    );
    let b3 = Backend::new(
        String::from("foo"),
        String::from("delta"),
        String::from("delta.foo.com"),
        "/bar".to_string(),
        String::from("service3"),
        String::from("ImplementationSpecific"),
        8083,
    );

    backends.push(b1);
    backends.push(b2);
    backends.push(b3);

    v.backends = backends;

    let template = "{{#each backend}}backend {{name}} -> {{host}}:{{port}} ({{path_type}})\n{{/each}}";
    match update(&v, template) {
        Ok(rendered) => assert!(!rendered.is_empty()),
        Err(e) => panic!("{}", e.message()),
    }
}

#[test]
fn render_is_a_function_of_the_data() {
    let mut v = Vcl::new(
        "f".to_string(),
        "t".to_string(),
        "w".to_string(),
        "recv-part".to_string(),
        "tail-part".to_string(),
    );
    v.backends = vec![backend("prod", "prod-web-api", "a.example.com", "/", "api", "Prefix", 80)];
    let template =
        "{{#each backend}}[{{name}}|{{host}}|{{path}}|{{port}}]{{/each}}(s:{{snippet}})(r:{{vcl_recv_snippet}})";
    let rendered = update(&v, template).expect("the template is well-formed");
    assert_eq!(
        rendered,
        "[prod-web-api|a.example.com|/|80](s:tail-part)(r:recv-part)"
    );
    // a second render of the unchanged state is byte-identical
    let again = update(&v, template).expect("the template is well-formed");
    assert_eq!(rendered, again);
}

#[test]
fn bad_template_is_a_register_failure() {
    let v = Vcl::new(
        "f".to_string(),
        "t".to_string(),
        "w".to_string(),
        String::new(),
        String::new(),
    );
    let r = update(&v, "{{#each backend}}unterminated");
    assert!(matches!(r, Err(UpdateError::TemplateRegisterFailed)));
}

#[test]
fn data_json_is_exact() {
    let mut v = Vcl::new(
        "f".to_string(),
        "t".to_string(),
        "w".to_string(),
        String::new(),
        String::new(),
    );
    v.backends = vec![backend("prod", "prod-web-api", "a.example.com", "/", "api", "Prefix", 80)];
    assert_eq!(
        build_data_json(&v),
        "{\"backend\":[{\"namespace\":\"prod\",\"name\":\"prod-web-api\",\"host\":\"a.example.com\",\"path\":\"/\",\"service\":\"api\",\"path_type\":\"Prefix\",\"port\":80}],\"snippet\":\"\",\"vcl_recv_snippet\":\"\"}"
    );
}

#[test]
fn data_json_escapes_quotes_and_backslashes() {
    let mut v = Vcl::new(
        "f".to_string(),
        "t".to_string(),
        "w".to_string(),
        String::new(),
        "say \"hi\" \\ now".to_string(),
    );
    v.backends = vec![];
    assert_eq!(
        build_data_json(&v),
        "{\"backend\":[],\"snippet\":\"say \\\"hi\\\" \\\\ now\",\"vcl_recv_snippet\":\"\"}"
    );
}

#[test]
fn sort_backends_orders_by_name_and_keeps_equal_names_stable() {
    let sorted = sort_backends(&vec![
        backend("n", "b", "hb", "/", "s1", "Prefix", 1),
        backend("n", "a", "ha", "/", "s2", "Prefix", 2),
        backend("n", "b", "hb2", "/", "s3", "Prefix", 3),
    ]);
    let names: Vec<&str> = sorted.iter().map(|b| b.name.as_str()).collect();
    assert_eq!(names, vec!["a", "b", "b"]);
    // the two entries named `b` keep their relative order
    assert_eq!(sorted[1].host, "hb");
    assert_eq!(sorted[2].host, "hb2");
}

#[test]
fn update_error_messages() {
    assert_eq!(
        UpdateError::PortMissing.message(),
        "Port number is missing"
    );
    assert_eq!(
        UpdateError::ReloadFailed("boom".to_string()).message(),
        "failed to reload the vcl: boom"
    );
}

#[test]
fn failing_helper_is_a_render_failure() {
    let v = Vcl::new(
        "f".to_string(),
        "t".to_string(),
        "w".to_string(),
        String::new(),
        String::new(),
    );
    // `lookup` without parameters registers fine but cannot render
    let r = update(&v, "{{lookup}}");
    assert!(matches!(r, Err(UpdateError::TemplateRenderFailed)));
}
