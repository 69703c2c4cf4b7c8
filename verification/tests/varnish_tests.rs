use vingress::cli::Args;
use vingress::configmap::{handle_configmap_event, ConfigMapObj};
use vingress::ingress::StepOutcome;
use vingress::varnish::{varnish_args, varnishlog_args, Varnish};
use vingress::vcl::Vcl;

#[test]
fn varnish_argument_vector() {
    let v = Varnish {
        cmd: "varnishd".to_string(),
        port: "6081".to_string(),
        vcl: "/etc/varnish/default.vcl".to_string(),
        work_dir: "/etc/varnish".to_string(),
        params: " thread_pools=2   default_grace=10 ".to_string(),
        default_ttl: "120s".to_string(),
        storage: "malloc,256m".to_string(),
    };
    assert_eq!(
        varnish_args(&v),
        vec![
            "-a",
            "0.0.0.0:6081",
            "-f",
            "/etc/varnish/default.vcl",
            "-n",
            "/etc/varnish",
            "-t",
            "120s",
            "-p",
            "thread_pools=2",
            "-p",
            "default_grace=10",
            "-s",
            "malloc,256m",
        ]
    );
}

#[test]
fn empty_params_and_storage_add_no_flags() {
    let v = Varnish {
        cmd: "varnishd".to_string(),
        port: "80".to_string(),
        vcl: "f".to_string(),
        work_dir: "w".to_string(),
        params: "".to_string(),
        default_ttl: "1s".to_string(),
        storage: "".to_string(),
    };
    assert_eq!(
        varnish_args(&v),
        vec!["-a", "0.0.0.0:80", "-f", "f", "-n", "w", "-t", "1s"]
    );
}

#[test]
fn varnishlog_argument_vector() {
    assert_eq!(varnishlog_args("/etc/varnish"), vec!["-n", "/etc/varnish", "-g", "request"]);
}

#[test]
fn args_defaults_follow_the_flag_table() {
    let a = Args::default();
    assert_eq!(a.log_level, "info");
    assert_eq!(a.vcl_file, "/etc/varnish/default.vcl");
    assert_eq!(a.template, "./template/vcl.hbs");
    assert_eq!(a.ingress_class, "varnish");
    assert_eq!(a.work_folder, "/etc/varnish");
    assert_eq!(a.params, "");
    assert_eq!(a.storage, "");
    assert_eq!(a.http_port, "6081");
    assert_eq!(a.default_ttl, "120s");
    assert_eq!(a.vcl_snippet, "");
    assert_eq!(a.vcl_recv_snippet, "");
    assert_eq!(a.namespace, "default");
}

#[test]
fn configmap_updates_snippets_and_renders() {
    let mut vcl = Vcl::new(
        "f".to_string(),
        "t".to_string(),
        "w".to_string(),
        String::new(),
        String::new(),
    );
    let cm = ConfigMapObj {
        name: Some("varnish-vcl".to_string()),
        data: Some(vec![
            ("snippet".to_string(), "tail".to_string()),
            ("vcl_recv_snippet".to_string(), "recv".to_string()),
        ]),
    };
    let outcome =
        handle_configmap_event(&cm, &mut vcl, "varnish-vcl", "(s:{{snippet}})(r:{{vcl_recv_snippet}})");
    assert_eq!(vcl.snippet, "tail");
    assert_eq!(vcl.vcl_recv_snippet, "recv");
    match outcome {
        StepOutcome::Render(s) => assert_eq!(s, "(s:tail)(r:recv)"),
        _ => panic!("a present key must render"),
    }
}

#[test]
fn configmap_of_another_name_or_without_keys_changes_nothing() {
    let mut vcl = Vcl::new(
        "f".to_string(),
        "t".to_string(),
        "w".to_string(),
        String::new(),
        "old".to_string(),
    );
    let other = ConfigMapObj {
        name: Some("something-else".to_string()),
        data: Some(vec![("snippet".to_string(), "new".to_string())]),
    };
    assert!(matches!(
        handle_configmap_event(&other, &mut vcl, "varnish-vcl", ""),
        StepOutcome::NoChange
    ));
    assert_eq!(vcl.snippet, "old");

    let empty = ConfigMapObj {
        name: Some("varnish-vcl".to_string()),
        data: Some(vec![("unrelated".to_string(), "x".to_string())]),
    };
    assert!(matches!(
        handle_configmap_event(&empty, &mut vcl, "varnish-vcl", ""),
        StepOutcome::NoChange
    ));
    assert_eq!(vcl.snippet, "old");
}
