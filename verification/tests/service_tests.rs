use vingress::service::{
    sort_load_balancer_ingresses, status_patch_json, update_status_from_svc, LbAddress,
    ServiceObj, ServiceSpecObj,
};
use vingress::vcl::UpdateError;

fn spec_of(ty: &str) -> ServiceSpecObj {
    ServiceSpecObj {
        type_: Some(ty.to_string()),
        cluster_ip: None,
        external_name: None,
        external_ips: None,
    }
}

fn ip(s: &str) -> LbAddress {
    LbAddress { ip: Some(s.to_string()), hostname: None }
}

fn host(s: &str) -> LbAddress {
    LbAddress { ip: None, hostname: Some(s.to_string()) }
}

#[test]
fn load_balancer_translation_and_sort() {
    // Service type LoadBalancer with its own ingress list and external IPs,
    // one of which is already present.
    let mut sp = spec_of("LoadBalancer");
    sp.external_ips = Some(vec!["2.2.2.2".to_string(), "1.1.1.1".to_string()]);
    let svc = ServiceObj {
        spec: Some(sp),
        lb_ingress: Some(vec![ip("1.1.1.1"), host("h")]),
    };
    let lbi = update_status_from_svc(&svc).expect("a LoadBalancer translates");
    let sorted = sort_load_balancer_ingresses(lbi);
    let shape: Vec<(Option<&str>, Option<&str>)> = sorted
        .iter()
        .map(|a| (a.ip.as_deref(), a.hostname.as_deref()))
        .collect();
    assert_eq!(
        shape,
        vec![
            (Some("1.1.1.1"), None),
            (Some("2.2.2.2"), None),
            (None, Some("h")),
        ]
    );
}

#[test]
fn external_name_and_cluster_ip_translations() {
    let mut sp = spec_of("ExternalName");
    sp.external_name = Some("svc.example.com".to_string());
    let svc = ServiceObj { spec: Some(sp), lb_ingress: None };
    let lbi = update_status_from_svc(&svc).unwrap();
    assert_eq!(lbi.len(), 1);
    assert_eq!(lbi[0].hostname.as_deref(), Some("svc.example.com"));
    assert_eq!(lbi[0].ip, None);

    let mut sp = spec_of("ClusterIP");
    sp.cluster_ip = Some("10.0.0.1".to_string());
    let svc = ServiceObj { spec: Some(sp), lb_ingress: None };
    let lbi = update_status_from_svc(&svc).unwrap();
    assert_eq!(lbi.len(), 1);
    assert_eq!(lbi[0].ip.as_deref(), Some("10.0.0.1"));
}

#[test]
fn node_port_uses_external_ips_or_cluster_ip() {
    let mut sp = spec_of("NodePort");
    sp.cluster_ip = Some("10.0.0.1".to_string());
    let svc = ServiceObj { spec: Some(sp), lb_ingress: None };
    let lbi = update_status_from_svc(&svc).unwrap();
    assert_eq!(lbi.len(), 1);
    assert_eq!(lbi[0].ip.as_deref(), Some("10.0.0.1"));

    let mut sp = spec_of("NodePort");
    sp.cluster_ip = Some("10.0.0.1".to_string());
    sp.external_ips = Some(vec!["3.3.3.3".to_string(), "4.4.4.4".to_string()]);
    let svc = ServiceObj { spec: Some(sp), lb_ingress: None };
    let lbi = update_status_from_svc(&svc).unwrap();
    let ips: Vec<&str> = lbi.iter().map(|a| a.ip.as_deref().unwrap()).collect();
    assert_eq!(ips, vec!["3.3.3.3", "4.4.4.4"]);
}

#[test]
fn translation_errors_name_the_missing_piece() {
    let svc = ServiceObj { spec: None, lb_ingress: None };
    assert!(matches!(
        update_status_from_svc(&svc),
        Err(UpdateError::UnknownServiceType)
    ));

    let svc = ServiceObj { spec: Some(spec_of("Bogus")), lb_ingress: None };
    assert!(matches!(
        update_status_from_svc(&svc),
        Err(UpdateError::UnknownServiceType)
    ));

    let svc = ServiceObj { spec: Some(spec_of("ClusterIP")), lb_ingress: None };
    assert!(matches!(
        update_status_from_svc(&svc),
        Err(UpdateError::ClusterIPMissing)
    ));

    let svc = ServiceObj { spec: Some(spec_of("NodePort")), lb_ingress: None };
    assert!(matches!(
        update_status_from_svc(&svc),
        Err(UpdateError::ClusterIPMissing)
    ));

    let svc = ServiceObj { spec: Some(spec_of("ExternalName")), lb_ingress: None };
    assert!(matches!(
        update_status_from_svc(&svc),
        Err(UpdateError::ExternalNameMissing)
    ));
}

#[test]
fn sort_puts_every_ip_before_every_hostname() {
    let sorted = sort_load_balancer_ingresses(vec![
        host("zzz"),
        ip("9.9.9.9"),
        host("aaa"),
        ip("1.1.1.1"),
    ]);
    let shape: Vec<(Option<&str>, Option<&str>)> = sorted
        .iter()
        .map(|a| (a.ip.as_deref(), a.hostname.as_deref()))
        .collect();
    // entries with an IP first and ascending; the hostname group keeps its order
    assert_eq!(
        shape,
        vec![
            (Some("1.1.1.1"), None),
            (Some("9.9.9.9"), None),
            (None, Some("zzz")),
            (None, Some("aaa")),
        ]
    );
}

#[test]
fn status_patch_is_exact() {
    let patch = status_patch_json(&vec![ip("1.1.1.1"), ip("2.2.2.2"), host("h")]);
    assert_eq!(
        patch,
        "{\"status\":{\"loadBalancer\":{\"ingress\":[{\"ip\":\"1.1.1.1\"},{\"ip\":\"2.2.2.2\"},{\"hostname\":\"h\"}]}}}"
    );
}
