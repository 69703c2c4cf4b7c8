//! A verified core for an ingress controller that programs a local
//! HTTP-caching reverse proxy from declarative cluster objects: the
//! reconciliation of observed Ingresses into a deterministic config
//! artifact, the translation of the controller's Service into published
//! addresses, the leader-election decisions, the launch arguments of the
//! cache process, and the parser of its request trace.
pub mod cli;
pub mod configmap;
pub mod ingress;
pub mod jsontext;
pub mod leader;
pub mod service;
pub mod text;
pub mod varnish;
pub mod varnishlog;
pub mod vcl;
