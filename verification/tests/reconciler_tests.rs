use vingress::ingress::{
    global_backends, handle_ingress_delete, handle_ingress_event, is_varnish_class,
    parse_ingress_spec, process_ingress_event, select_patch_targets, IngressEvent, IngressObj,
    IngressSpecObj, IngressStore, PathObj, RuleObj, ServiceBackendObj, StepOutcome,
};
use vingress::vcl::{UpdateError, Vcl};

fn simple_ingress(ns: &str, name: &str, host: &str, path: &str, svc: &str, port: i32) -> IngressObj {
    IngressObj {
        name: Some(name.to_string()),
        namespace: Some(ns.to_string()),
        spec: Some(IngressSpecObj {
            ingress_class_name: Some("varnish".to_string()),
            rules: Some(vec![RuleObj {
                host: Some(host.to_string()),
                paths: Some(vec![PathObj {
                    path: Some(path.to_string()),
                    path_type: "Prefix".to_string(),
                    service: Some(ServiceBackendObj {
                        name: svc.to_string(),
                        port_number: Some(port),
                    }),
                }]),
            }]),
        }),
        has_status: true,
    }
}

const TEMPLATE: &str = "{{#each backend}}[{{name}}|{{host}}|{{path}}|{{port}}]{{/each}}";

#[test]
fn single_ingress_one_backend() {
    let ing = simple_ingress("prod", "web", "a.example.com", "/", "api", 80);
    let mut store = IngressStore::new();
    let mut vcl = Vcl::new(
        "f".to_string(),
        "t".to_string(),
        "w".to_string(),
        String::new(),
        String::new(),
    );
    let outcome = process_ingress_event(
        &IngressEvent::Apply(ing),
        "varnish",
        &mut store,
        &mut vcl,
        TEMPLATE,
    );
    assert_eq!(vcl.backends.len(), 1);
    let b = &vcl.backends[0];
    assert_eq!(b.name, "prod-web-api");
    assert_eq!(b.host, "a.example.com");
    assert_eq!(b.path, "/");
    assert_eq!(b.port, 80);
    match outcome {
        StepOutcome::Render(s) => assert_eq!(s, "[prod-web-api|a.example.com|/|80]"),
        _ => panic!("an Apply event must render"),
    }
}

#[test]
fn startup_stream_fuses_reloads() {
    let ing1 = simple_ingress("foo", "ing1", "one.example.com", "/", "svc1", 81);
    let ing2 = simple_ingress("foo", "ing2", "two.example.com", "/", "svc2", 82);
    let mut store = IngressStore::new();
    let mut vcl = Vcl::new(
        "f".to_string(),
        "t".to_string(),
        "w".to_string(),
        String::new(),
        String::new(),
    );
    let events = vec![
        IngressEvent::Init,
        IngressEvent::InitApply(ing1),
        IngressEvent::InitApply(ing2),
        IngressEvent::InitDone,
    ];
    let mut renders = 0;
    for ev in &events {
        match process_ingress_event(ev, "varnish", &mut store, &mut vcl, TEMPLATE) {
            StepOutcome::Render(_) => renders += 1,
            StepOutcome::NoChange => {}
            StepOutcome::RenderFailed(_) => panic!("render must succeed"),
        }
    }
    assert_eq!(renders, 1);
    let names: Vec<&str> = vcl.backends.iter().map(|b| b.name.as_str()).collect();
    assert_eq!(names, vec!["foo-ing1-svc1", "foo-ing2-svc2"]);
}

#[test]
fn delete_removes_the_ingress_backends() {
    let ing1 = simple_ingress("foo", "ing1", "one.example.com", "/", "svc1", 81);
    let ing2 = simple_ingress("foo", "ing2", "two.example.com", "/", "svc2", 82);
    let mut store = IngressStore::new();
    let mut vcl = Vcl::new(
        "f".to_string(),
        "t".to_string(),
        "w".to_string(),
        String::new(),
        String::new(),
    );
    for ev in vec![
        IngressEvent::Init,
        IngressEvent::InitApply(ing1),
        IngressEvent::InitApply(ing2),
        IngressEvent::InitDone,
    ] {
        process_ingress_event(&ev, "varnish", &mut store, &mut vcl, TEMPLATE);
    }
    let ing1_again = simple_ingress("foo", "ing1", "one.example.com", "/", "svc1", 81);
    let mut renders = 0;
    match process_ingress_event(
        &IngressEvent::Delete(ing1_again),
        "varnish",
        &mut store,
        &mut vcl,
        TEMPLATE,
    ) {
        StepOutcome::Render(_) => renders += 1,
        _ => panic!("a Delete event must render"),
    }
    assert_eq!(renders, 1);
    let names: Vec<&str> = vcl.backends.iter().map(|b| b.name.as_str()).collect();
    assert_eq!(names, vec!["foo-ing2-svc2"]);
    assert!(!names.iter().any(|n| n.starts_with("foo-ing1-")));
}

#[test]
fn render_output_does_not_depend_on_event_order() {
    let a = simple_ingress("ns", "aaa", "a.example.com", "/", "s1", 1);
    let b = simple_ingress("ns", "bbb", "b.example.com", "/", "s2", 2);
    let mut vcl1 = Vcl::new("f".into(), "t".into(), "w".into(), String::new(), String::new());
    let mut vcl2 = Vcl::new("f".into(), "t".into(), "w".into(), String::new(), String::new());
    let mut store1 = IngressStore::new();
    let mut store2 = IngressStore::new();
    // the same two Ingresses, observed in either order
    handle_ingress_event(&a, "varnish", &mut store1);
    handle_ingress_event(&b, "varnish", &mut store1);
    handle_ingress_event(&b, "varnish", &mut store2);
    handle_ingress_event(&a, "varnish", &mut store2);
    vcl1.backends = global_backends(&store1);
    vcl2.backends = global_backends(&store2);
    let r1 = vingress::vcl::update(&vcl1, TEMPLATE).unwrap();
    let r2 = vingress::vcl::update(&vcl2, TEMPLATE).unwrap();
    assert_eq!(r1, r2);
}

#[test]
fn missing_port_fails_the_whole_ingress() {
    let mut ing = simple_ingress("prod", "web", "a.example.com", "/", "api", 80);
    if let Some(spec) = &mut ing.spec {
        if let Some(rules) = &mut spec.rules {
            if let Some(paths) = &mut rules[0].paths {
                paths[0].service.as_mut().unwrap().port_number = None;
            }
        }
    }
    let r = parse_ingress_spec(&ing);
    assert!(matches!(r, Err(UpdateError::PortMissing)));
    // a store fed that Ingress keeps its previous state
    let mut store = IngressStore::new();
    handle_ingress_event(&ing, "varnish", &mut store);
    assert!(global_backends(&store).is_empty());
}

#[test]
fn class_filter_is_case_insensitive() {
    let mut ing = simple_ingress("prod", "web", "a.example.com", "/", "api", 80);
    if let Some(spec) = &mut ing.spec {
        spec.ingress_class_name = Some("VARNISH".to_string());
    }
    assert!(is_varnish_class(&ing, "varnish"));
    let other = IngressObj {
        name: Some("other".to_string()),
        namespace: None,
        spec: Some(IngressSpecObj {
            ingress_class_name: Some("nginx".to_string()),
            rules: None,
        }),
        has_status: false,
    };
    assert!(!is_varnish_class(&other, "varnish"));
    // an Ingress of another class never reaches the store
    let mut store = IngressStore::new();
    handle_ingress_event(&other, "varnish", &mut store);
    handle_ingress_delete(&other, "varnish", &mut store);
    assert!(global_backends(&store).is_empty());
}

#[test]
fn patch_targets_keep_controlled_ingresses_with_status() {
    let with_status = simple_ingress("prod", "web", "a.example.com", "/", "api", 80);
    let mut no_status = simple_ingress("prod", "bare", "b.example.com", "/", "api", 80);
    no_status.has_status = false;
    let mut foreign = simple_ingress("prod", "other", "c.example.com", "/", "api", 80);
    if let Some(spec) = &mut foreign.spec {
        spec.ingress_class_name = Some("nginx".to_string());
    }
    let targets = select_patch_targets(&vec![with_status, no_status, foreign], "varnish");
    assert_eq!(targets, vec![("web".to_string(), "prod".to_string())]);
}
