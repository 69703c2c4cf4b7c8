//! The controller's configuration: every command-line flag with its
//! default. Parsing the command line and the environment stays outside
//! the library; it fills this record and hands it in.
use vstd::prelude::*;

verus! {

/// The controller's settings, one field per flag.
#[derive(Debug)]
pub struct Args {
    /// The logger threshold.
    pub log_level: String,
    /// The rendered config path (the cache process's `-f`).
    pub vcl_file: String,
    /// The template path.
    pub template: String,
    /// The Ingress class the controller owns.
    pub ingress_class: String,
    /// The cache process's work directory (`-n`).
    pub work_folder: String,
    /// Extra parameters, whitespace-split into `-p` flags.
    pub params: String,
    /// The storage backend (`-s`).
    pub storage: String,
    /// The HTTP port the cache process listens on.
    pub http_port: String,
    /// The default TTL for cached objects (`-t`).
    pub default_ttl: String,
    /// Free-form text appended near the end of the template.
    pub vcl_snippet: String,
    /// Text interpolated into the receive hook of the template.
    pub vcl_recv_snippet: String,
    /// The namespace the controller operates in.
    pub namespace: String,
}

impl Default for Args {
    /// The documented defaults of every flag.
    fn default() -> (r: Self)
        ensures
            r.log_level@ == "info"@,
            r.vcl_file@ == "/etc/varnish/default.vcl"@,
            r.template@ == "./template/vcl.hbs"@,
            r.ingress_class@ == "varnish"@,
            r.work_folder@ == "/etc/varnish"@,
            r.params@ == ""@,
            r.storage@ == ""@,
            r.http_port@ == "6081"@,
            r.default_ttl@ == "120s"@,
            r.vcl_snippet@ == ""@,
            r.vcl_recv_snippet@ == ""@,
            r.namespace@ == "default"@,
    {
        Args {
            log_level: String::from_str("info"),
            vcl_file: String::from_str("/etc/varnish/default.vcl"),
            template: String::from_str("./template/vcl.hbs"),
            ingress_class: String::from_str("varnish"),
            work_folder: String::from_str("/etc/varnish"),
            params: String::from_str(""),
            storage: String::from_str(""),
            http_port: String::from_str("6081"),
            default_ttl: String::from_str("120s"),
            vcl_snippet: String::from_str(""),
            vcl_recv_snippet: String::from_str(""),
            namespace: String::from_str("default"),
        }
    }
}

} // verus!
