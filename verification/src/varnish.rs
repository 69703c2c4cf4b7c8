//! The supervisor's view of the cache process: what it is launched with.
//! The argument vector is a function of the configuration alone; spawning,
//! exit watching and signal handling stay outside the library.
use vstd::prelude::*;

use crate::text::append_str;
use crate::text::from_chars;
use crate::text::split_whitespace_tokens;
use crate::text::split_ws;
use crate::text::strs_views;
use crate::text::to_chars;

verus! {

/// The launch configuration of the cache process.
pub struct Varnish {
    /// The binary to launch.
    pub cmd: String,
    /// The HTTP port, as `-a 0.0.0.0:<port>`.
    pub port: String,
    /// The config file path, as `-f`.
    pub vcl: String,
    /// The work directory, as `-n`.
    pub work_dir: String,
    /// Extra parameters, whitespace separated, each as `-p <token>`.
    pub params: String,
    /// The default TTL, as `-t`.
    pub default_ttl: String,
    /// The storage backend, as `-s`, left out when empty.
    pub storage: String,
}

/// The mathematical value of a launch configuration.
pub struct VarnishV {
    pub cmd: Seq<char>,
    pub port: Seq<char>,
    pub vcl: Seq<char>,
    pub work_dir: Seq<char>,
    pub params: Seq<char>,
    pub default_ttl: Seq<char>,
    pub storage: Seq<char>,
}

impl View for Varnish {
    type V = VarnishV;

    open spec fn view(&self) -> VarnishV {
        VarnishV {
            cmd: self.cmd@,
            port: self.port@,
            vcl: self.vcl@,
            work_dir: self.work_dir@,
            params: self.params@,
            default_ttl: self.default_ttl@,
            storage: self.storage@,
        }
    }
}

/// Each token preceded by its `-p` flag.
pub open spec fn p_flags(ts: Seq<Seq<char>>) -> Seq<Seq<char>>
    decreases ts.len(),
{
    if ts.len() == 0 {
        Seq::<Seq<char>>::empty()
    } else {
        p_flags(ts.drop_last()) + seq!["-p"@, ts.last()]
    }
}

/// The cache process's argument vector: the listen address, the config
/// file, the work directory, the default TTL, one `-p` per extra
/// parameter token, and the storage backend when one is named.
pub open spec fn spec_varnish_args(v: VarnishV) -> Seq<Seq<char>> {
    seq!["-a"@, "0.0.0.0:"@ + v.port, "-f"@, v.vcl, "-n"@, v.work_dir, "-t"@, v.default_ttl]
        + p_flags(split_ws(v.params)) + (if v.storage.len() == 0 {
        Seq::<Seq<char>>::empty()
    } else {
        seq!["-s"@, v.storage]
    })
}

/// Assemble the cache process's argument vector.
pub fn varnish_args(v: &Varnish) -> (r: Vec<String>)
    ensures
        strs_views(r@) == spec_varnish_args(v@),
{
    let mut r: Vec<String> = Vec::new();
    r.push(String::from_str("-a"));
    let mut addr = to_chars("0.0.0.0:");
    append_str(&mut addr, v.port.as_str());
    r.push(from_chars(&addr));
    r.push(String::from_str("-f"));
    r.push(v.vcl.clone());
    r.push(String::from_str("-n"));
    r.push(v.work_dir.clone());
    r.push(String::from_str("-t"));
    r.push(v.default_ttl.clone());
    let ghost head = strs_views(r@);
    proof {
        assert(head =~= seq![
            "-a"@,
            "0.0.0.0:"@ + v@.port,
            "-f"@,
            v@.vcl,
            "-n"@,
            v@.work_dir,
            "-t"@,
            v@.default_ttl,
        ]);
    }
    let toks = split_whitespace_tokens(v.params.as_str());
    let ghost tv = strs_views(toks@);
    let n = toks.len();
    let mut i: usize = 0;
    proof {
        assert(tv.take(0) =~= Seq::<Seq<char>>::empty());
        assert(strs_views(r@) =~= head + p_flags(tv.take(0)));
    }
    while i < n
        invariant
            n == toks@.len(),
            tv == strs_views(toks@),
            i <= n,
            strs_views(r@) == head + p_flags(tv.take(i as int)),
        decreases n - i,
    {
        let ghost prev = r@;
        r.push(String::from_str("-p"));
        r.push(toks[i].clone());
        proof {
            assert(tv.take(i + 1).drop_last() =~= tv.take(i as int));
            assert(tv.take(i + 1).last() == tv[i as int]);
            assert(tv[i as int] == toks@[i as int]@);
            assert(strs_views(r@) =~= strs_views(prev) + seq!["-p"@, toks@[i as int]@]);
            assert(p_flags(tv.take(i + 1)) == p_flags(tv.take(i as int)) + seq![
                "-p"@,
                tv[i as int],
            ]);
            assert(strs_views(r@) =~= head + p_flags(tv.take(i + 1)));
        }
        i = i + 1;
    }
    proof {
        assert(tv.take(n as int) =~= tv);
    }
    if v.storage.as_str().unicode_len() > 0 {
        r.push(String::from_str("-s"));
        r.push(v.storage.clone());
        proof {
            assert(strs_views(r@) =~= spec_varnish_args(v@));
        }
    } else {
        proof {
            assert(v@.storage.len() == 0) by {
                assert(v.storage@.len() == 0);
            }
            assert(strs_views(r@) =~= spec_varnish_args(v@));
        }
    }
    r
}

/// The trace sibling's argument vector: its work directory and request
/// grouping.
pub fn varnishlog_args(work_dir: &str) -> (r: Vec<String>)
    ensures
        strs_views(r@) == seq!["-n"@, work_dir@, "-g"@, "request"@],
{
    let mut r: Vec<String> = Vec::new();
    r.push(String::from_str("-n"));
    r.push(String::from_str(work_dir));
    r.push(String::from_str("-g"));
    r.push(String::from_str("request"));
    proof {
        assert(strs_views(r@) =~= seq!["-n"@, work_dir@, "-g"@, "request"@]);
    }
    r
}

} // verus!
