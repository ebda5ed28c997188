//! Push-gateway requests.
//!
//! Pushing sends a snapshot to a gateway over HTTP; this crate builds the
//! whole request — endpoint address, media type and binary body — and
//! validates the job name, the grouping labels and the pushed metrics, but
//! performs no network transfer itself: the host hands the finished
//! [`PushRequest`] to its HTTP client and interprets the status code.

use crate::encoder::pb::{pb_encoding, ProtobufEncoder, PROTOBUF_FORMAT};
use crate::encoder::Encoder;
use crate::errors::Error;
use crate::lexical::str_eq;
use crate::proto::{MetricFamily, MetricFamilyV};
use crate::registry::{all_families, gather_ok, register_all, Collector, Registry};
use vstd::prelude::*;

verus! {

/// The HTTP method of a push: replacing pushes use `PUT`, adding pushes
/// use `POST`.
#[derive(Debug, Clone, Copy, PartialEq, Eq, Structural)]
pub enum PushMethod {
    /// Replace all previously pushed metrics under the same grouping.
    Put,
    /// Replace only previously pushed metrics with the same names.
    Post,
}

/// `BasicAuthentication` holder for pushing to gateways guarded by Basic
/// access authentication.
#[derive(Debug)]
pub struct BasicAuthentication {
    /// The Basic Authentication username (possibly empty string).
    pub username: String,
    /// The Basic Authentication password (possibly empty string).
    pub password: String,
}

/// One fully prepared push: everything the host's HTTP client needs.
#[derive(Debug)]
pub struct PushRequest {
    /// The HTTP method to use.
    pub method: PushMethod,
    /// The full endpoint address.
    pub url: String,
    /// The body's media type.
    pub content_type: &'static str,
    /// The encoded snapshot.
    pub body: Vec<u8>,
    /// The credentials to attach, if any.
    pub basic_auth: Option<BasicAuthentication>,
}

/// Whether a text holds a slash.
pub open spec fn contains_slash(s: Seq<char>) -> bool {
    exists|i: int| 0 <= i < s.len() && s[i] == '/'
}

/// Whether a text holds `://` somewhere.
pub open spec fn has_scheme(u: Seq<char>) -> bool {
    exists|i: int| 0 <= i && i + 3 <= u.len() && (#[trigger] u[i]) == ':' && u[i + 1] == '/'
        && u[i + 2] == '/'
}

/// The scheme part prepended to bare addresses.
pub open spec fn http_prefix() -> Seq<char> {
    seq!['h', 't', 't', 'p', ':', '/', '/']
}

/// The path between the gateway address and the job component.
pub open spec fn job_path() -> Seq<char> {
    seq!['/', 'm', 'e', 't', 'r', 'i', 'c', 's', '/', 'j', 'o', 'b', '/']
}

/// The reserved grouping-label name `job`.
pub open spec fn job_label() -> Seq<char> {
    seq!['j', 'o', 'b']
}

/// The gateway base address: the scheme added when missing, one trailing
/// slash removed.
pub open spec fn base_url(u: Seq<char>) -> Seq<char> {
    let with_scheme = if has_scheme(u) {
        u
    } else {
        http_prefix() + u
    };
    if with_scheme.len() > 0 && with_scheme.last() == '/' {
        with_scheme.drop_last()
    } else {
        with_scheme
    }
}

/// The grouping components of the endpoint path: `/name/value` per label.
pub open spec fn grouping_path(g: Seq<(Seq<char>, Seq<char>)>) -> Seq<char>
    decreases g.len(),
{
    if g.len() == 0 {
        Seq::empty()
    } else {
        seq!['/'] + g[0].0 + seq!['/'] + g[0].1 + grouping_path(g.drop_first())
    }
}

/// The full endpoint address of a push.
pub open spec fn push_url(u: Seq<char>, job: Seq<char>, g: Seq<(Seq<char>, Seq<char>)>) -> Seq<
    char,
> {
    base_url(u) + job_path() + job + grouping_path(g)
}

/// Whether a label name is reserved for the push's grouping.
pub open spec fn reserved_name(name: Seq<char>, g: Seq<(Seq<char>, Seq<char>)>) -> bool {
    name == job_label() || exists|i: int| 0 <= i < g.len() && (#[trigger] g[i]).0 == name
}

/// Whether any pushed sample carries a reserved label name.
pub open spec fn has_reserved_label(
    fams: Seq<MetricFamilyV>,
    g: Seq<(Seq<char>, Seq<char>)>,
) -> bool {
    exists|f: int, m: int, l: int|
        0 <= f < fams.len() && 0 <= m < fams[f].metrics.len() && 0 <= l
            < fams[f].metrics[m].labels.len() && reserved_name(
            (#[trigger] fams[f].metrics[m].labels[l]).name,
            g,
        )
}

/// The first validation failure of a push: a job name with a slash, then a
/// grouping-label value with a slash, then a pushed metric carrying a
/// reserved label name.
pub open spec fn push_failure(
    job: Seq<char>,
    g: Seq<(Seq<char>, Seq<char>)>,
    fams: Seq<MetricFamilyV>,
) -> Option<Error> {
    if contains_slash(job) {
        Some(Error::InvalidJob)
    } else if exists|i: int| 0 <= i < g.len() && contains_slash((#[trigger] g[i]).1) {
        Some(Error::InvalidGroupingValue)
    } else if has_reserved_label(fams, g) {
        Some(Error::ReservedLabel)
    } else {
        None
    }
}

/// The pushed body: each family's length-delimited record, families that
/// fail the encoder's check silently skipped.
pub open spec fn push_body(fams: Seq<MetricFamilyV>) -> Seq<u8>
    decreases fams.len(),
{
    if fams.len() == 0 {
        Seq::empty()
    } else {
        pb_encoding(fams.take(1)) + push_body(fams.drop_first())
    }
}

/// Whether a string holds a slash.
fn str_contains_slash(s: &str) -> (r: bool)
    ensures
        r == contains_slash(s@),
{
    let n = s.unicode_len();
    let mut i: usize = 0;
    while i < n
        invariant
            i <= n,
            n == s@.len(),
            forall|j: int| 0 <= j < i ==> s@[j] != '/',
        decreases n - i,
    {
        if s.get_char(i) == '/' {
            return true;
        }
        i = i + 1;
    }
    proof {
        if contains_slash(s@) {
            let j = choose|j: int| 0 <= j < s@.len() && s@[j] == '/';
            assert(s@[j] != '/');
        }
    }
    false
}

/// Whether a string holds `://` somewhere.
fn str_has_scheme(s: &str) -> (r: bool)
    ensures
        r == has_scheme(s@),
{
    let n = s.unicode_len();
    if n < 3 {
        proof {
            if has_scheme(s@) {
                let i = choose|i: int|
                    0 <= i && i + 3 <= s@.len() && (#[trigger] s@[i]) == ':' && s@[i + 1] == '/'
                        && s@[i + 2] == '/';
            }
        }
        return false;
    }
    let mut i: usize = 0;
    while i < n - 2
        invariant
            n == s@.len(),
            n >= 3,
            i <= n,
            forall|j: int| 0 <= j < i ==> !((#[trigger] s@[j]) == ':' && s@[j + 1] == '/'
                && s@[j + 2] == '/'),
        decreases n - i,
    {
        if s.get_char(i) == ':' && s.get_char(i + 1) == '/' && s.get_char(i + 2) == '/' {
            return true;
        }
        i = i + 1;
    }
    proof {
        if has_scheme(s@) {
            let j = choose|j: int|
                0 <= j && j + 3 <= s@.len() && (#[trigger] s@[j]) == ':' && s@[j + 1] == '/'
                    && s@[j + 2] == '/';
            assert(!(s@[j] == ':' && s@[j + 1] == '/' && s@[j + 2] == '/'));
        }
    }
    false
}

/// Build the full request of a replacing push: validate the job name, the
/// grouping labels and the metrics, then assemble the endpoint address and
/// the encoded body.  The gateway address may come with or without a
/// scheme; `http://` is assumed when none is given.
pub fn push_metrics(
    job: &str,
    grouping: &Vec<(String, String)>,
    url: &str,
    mfs: &Vec<MetricFamily>,
    basic_auth: Option<BasicAuthentication>,
) -> (r: Result<PushRequest, Error>)
    ensures
        ({
            let failure = push_failure(job@, grouping.deep_view(), mfs.deep_view());
            match failure {
                Some(e) => r == Result::<PushRequest, Error>::Err(e),
                None => r matches Ok(req) && req.method == PushMethod::Put && req.url@ == push_url(
                    url@,
                    job@,
                    grouping.deep_view(),
                ) && req.body@ == push_body(mfs.deep_view()) && req.content_type@
                    == PROTOBUF_FORMAT@,
            }
        }),
{
    push(job, grouping, url, mfs, PushMethod::Put, basic_auth)
}

/// Build the full request of an adding push; as [`push_metrics`], but over
/// `POST`.
pub fn push_add_metrics(
    job: &str,
    grouping: &Vec<(String, String)>,
    url: &str,
    mfs: &Vec<MetricFamily>,
    basic_auth: Option<BasicAuthentication>,
) -> (r: Result<PushRequest, Error>)
    ensures
        ({
            let failure = push_failure(job@, grouping.deep_view(), mfs.deep_view());
            match failure {
                Some(e) => r == Result::<PushRequest, Error>::Err(e),
                None => r matches Ok(req) && req.method == PushMethod::Post && req.url@
                    == push_url(url@, job@, grouping.deep_view()) && req.body@ == push_body(
                    mfs.deep_view(),
                ) && req.content_type@ == PROTOBUF_FORMAT@,
            }
        }),
{
    push(job, grouping, url, mfs, PushMethod::Post, basic_auth)
}

/// Build one push request.
#[verifier::rlimit(80)]
fn push(
    job: &str,
    grouping: &Vec<(String, String)>,
    url: &str,
    mfs: &Vec<MetricFamily>,
    method: PushMethod,
    basic_auth: Option<BasicAuthentication>,
) -> (r: Result<PushRequest, Error>)
    ensures
        ({
            let failure = push_failure(job@, grouping.deep_view(), mfs.deep_view());
            match failure {
                Some(e) => r == Result::<PushRequest, Error>::Err(e),
                None => r matches Ok(req) && req.method == method && req.url@ == push_url(
                    url@,
                    job@,
                    grouping.deep_view(),
                ) && req.body@ == push_body(mfs.deep_view()) && req.content_type@
                    == PROTOBUF_FORMAT@,
            }
        }),
{
    let ghost gv = grouping.deep_view();
    let ghost fv = mfs.deep_view();
    // The job name must not hold a slash.
    if str_contains_slash(job) {
        return Err(Error::InvalidJob);
    }
    // Nor may any grouping-label value.
    let mut i: usize = 0;
    while i < grouping.len()
        invariant
            i <= grouping.len(),
            gv == grouping.deep_view(),
            !contains_slash(job@),
            forall|k: int| 0 <= k < i ==> !contains_slash((#[trigger] gv[k]).1),
        decreases grouping.len() - i,
    {
        if str_contains_slash(grouping[i].1.as_str()) {
            proof {
                assert(contains_slash(gv[i as int].1));
            }
            return Err(Error::InvalidGroupingValue);
        }
        i = i + 1;
    }
    // Nor may a pushed sample already carry a reserved label name.
    let mut f: usize = 0;
    while f < mfs.len()
        invariant
            f <= mfs.len(),
            gv == grouping.deep_view(),
            fv == mfs.deep_view(),
            !contains_slash(job@),
            forall|k: int| 0 <= k < gv.len() ==> !contains_slash((#[trigger] gv[k]).1),
            forall|a: int, m: int, l: int|
                0 <= a < f && 0 <= m < fv[a].metrics.len() && 0 <= l
                    < fv[a].metrics[m].labels.len() ==> !reserved_name(
                    (#[trigger] fv[a].metrics[m].labels[l]).name,
                    gv,
                ),
        decreases mfs.len() - f,
    {
        let mf = &mfs[f];
        let mut m: usize = 0;
        while m < mf.metrics.len()
            invariant
                f < mfs.len(),
                m <= mf.metrics.len(),
                gv == grouping.deep_view(),
                fv == mfs.deep_view(),
                mf == &mfs[f as int],
                !contains_slash(job@),
                forall|k: int| 0 <= k < gv.len() ==> !contains_slash((#[trigger] gv[k]).1),
                forall|mm: int, l: int|
                    0 <= mm < m && 0 <= l < fv[f as int].metrics[mm].labels.len()
                        ==> !reserved_name(
                        (#[trigger] fv[f as int].metrics[mm].labels[l]).name,
                        gv,
                    ),
            decreases mf.metrics.len() - m,
        {
            let metric = &mf.metrics[m];
            let mut l: usize = 0;
            while l < metric.labels.len()
                invariant
                    f < mfs.len(),
                    m < mf.metrics.len(),
                    l <= metric.labels.len(),
                    gv == grouping.deep_view(),
                    fv == mfs.deep_view(),
                    mf == &mfs[f as int],
                    metric == &mfs[f as int].metrics[m as int],
                    !contains_slash(job@),
                    forall|k: int| 0 <= k < gv.len() ==> !contains_slash((#[trigger] gv[k]).1),
                    forall|ll: int| 0 <= ll < l ==> !reserved_name(
                        (#[trigger] fv[f as int].metrics[m as int].labels[ll]).name,
                        gv,
                    ),
                decreases metric.labels.len() - l,
            {
                let name = &metric.labels[l].name;
                proof {
                    assert(fv[f as int].metrics[m as int].labels[l as int].name == name@);
                    reveal_strlit("job");
                    assert("job"@ =~= job_label());
                }
                if str_eq(name.as_str(), "job") {
                    proof {
                        assert(m < fv[f as int].metrics.len());
                        assert(l < fv[f as int].metrics[m as int].labels.len());
                        assert(reserved_name(
                            fv[f as int].metrics[m as int].labels[l as int].name,
                            gv,
                        ));
                        assert(has_reserved_label(fv, gv));
                    }
                    return Err(Error::ReservedLabel);
                }
                let mut gi: usize = 0;
                while gi < grouping.len()
                    invariant
                        f < mfs.len(),
                        m < mf.metrics.len(),
                        l < metric.labels.len(),
                        gi <= grouping.len(),
                        gv == grouping.deep_view(),
                        fv == mfs.deep_view(),
                        mf == &mfs[f as int],
                        metric == &mfs[f as int].metrics[m as int],
                        name == &mfs[f as int].metrics[m as int].labels[l as int].name,
                        name@ == fv[f as int].metrics[m as int].labels[l as int].name,
                        !contains_slash(job@),
                        forall|k: int| 0 <= k < gv.len() ==> !contains_slash(
                            (#[trigger] gv[k]).1,
                        ),
                        forall|k: int| 0 <= k < gi ==> (#[trigger] gv[k]).0 != name@,
                    decreases grouping.len() - gi,
                {
                    if str_eq(grouping[gi].0.as_str(), name.as_str()) {
                        proof {
                            assert(gv[gi as int].0 == name@);
                            assert(m < fv[f as int].metrics.len());
                            assert(l < fv[f as int].metrics[m as int].labels.len());
                            assert(reserved_name(
                                fv[f as int].metrics[m as int].labels[l as int].name,
                                gv,
                            ));
                            assert(has_reserved_label(fv, gv));
                        }
                        return Err(Error::ReservedLabel);
                    }
                    gi = gi + 1;
                }
                proof {
                    assert(name@ != job_label());
                    if exists|k: int| 0 <= k < gv.len() && (#[trigger] gv[k]).0 == name@ {
                        let k = choose|k: int| 0 <= k < gv.len() && (#[trigger] gv[k]).0 == name@;
                        assert(gv[k].0 != name@);
                    }
                    assert(!reserved_name(
                        fv[f as int].metrics[m as int].labels[l as int].name,
                        gv,
                    ));
                }
                l = l + 1;
            }
            m = m + 1;
        }
        f = f + 1;
    }
    proof {
        assert(!has_reserved_label(fv, gv));
        assert(push_failure(job@, gv, fv) is None);
    }
    // Assemble the endpoint address.
    let mut address = if str_has_scheme(url) {
        url.to_owned()
    } else {
        let mut a = new_string("http://");
        a.append(url);
        proof {
            reveal_strlit("http://");
            assert("http://"@ =~= http_prefix());
        }
        a
    };
    let alen = address.as_str().unicode_len();
    if alen > 0 && address.as_str().get_char(alen - 1) == '/' {
        let trimmed = address.as_str().substring_char(0, alen - 1);
        proof {
            assert(trimmed@ =~= address@.drop_last());
        }
        address = trimmed.to_owned();
    }
    proof {
        assert(address@ == base_url(url@));
    }
    address.append("/metrics/job/");
    address.append(job);
    proof {
        reveal_strlit("/metrics/job/");
        assert("/metrics/job/"@ =~= job_path());
    }
    let mut i: usize = 0;
    proof {
        assert(gv.skip(0) =~= gv);
    }
    while i < grouping.len()
        invariant
            i <= grouping.len(),
            gv == grouping.deep_view(),
            address@ + grouping_path(gv.skip(i as int)) == base_url(url@) + job_path() + job@
                + grouping_path(gv),
        decreases grouping.len() - i,
    {
        address.push('/');
        address.append(grouping[i].0.as_str());
        address.push('/');
        address.append(grouping[i].1.as_str());
        proof {
            assert(gv.skip(i as int).drop_first() =~= gv.skip(i as int + 1));
            assert(gv.skip(i as int)[0] == gv[i as int]);
            assert(address@ + grouping_path(gv.skip(i as int + 1)) =~= base_url(url@) + job_path()
                + job@ + grouping_path(gv));
        }
        i = i + 1;
    }
    proof {
        assert(gv.skip(grouping.len() as int) =~= Seq::<(Seq<char>, Seq<char>)>::empty());
        assert(address@ =~= push_url(url@, job@, gv));
    }
    // Encode the body, one family at a time; a family the encoder rejects
    // contributes nothing.
    let encoder = ProtobufEncoder::new();
    let mut body: Vec<u8> = Vec::new();
    let mut f: usize = 0;
    proof {
        assert(fv.skip(0) =~= fv);
    }
    while f < mfs.len()
        invariant
            f <= mfs.len(),
            fv == mfs.deep_view(),
            body@ + push_body(fv.skip(f as int)) == push_body(fv),
        decreases mfs.len() - f,
    {
        let mut one: Vec<MetricFamily> = Vec::new();
        one.push(mfs[f].clone());
        let _ = encoder.encode(&one, &mut body);
        proof {
            assert(one.deep_view() =~= fv.skip(f as int).take(1));
            assert(fv.skip(f as int).drop_first() =~= fv.skip(f as int + 1));
            assert(fv.skip(f as int)[0] == fv[f as int]);
            assert(body@ + push_body(fv.skip(f as int + 1)) =~= push_body(fv));
        }
        f = f + 1;
    }
    proof {
        assert(fv.skip(mfs.len() as int) =~= Seq::<MetricFamilyV>::empty());
        assert(body@ =~= push_body(fv));
    }
    Ok(
        PushRequest {
            method,
            url: address,
            content_type: PROTOBUF_FORMAT,
            body,
            basic_auth,
        },
    )
}

/// Whether a gateway's HTTP status code means the push was taken: exactly
/// 200 and 202 do.
pub fn status_accepted(code: u16) -> (r: bool)
    ensures
        r == (code == 200 || code == 202),
{
    code == 200 || code == 202
}

/// Make an owned copy of a string slice.
fn new_string(s: &str) -> (r: String)
    ensures
        r@ == s@,
{
    s.to_owned()
}

/// The result is what pushing some snapshot of the given filed entries
/// returns: a snapshot of theirs exists whose push validation or finished
/// request the result carries.
pub open spec fn pushed_snapshot_of(
    r: Result<PushRequest, Error>,
    entries: Seq<(u64, Collector)>,
    job: Seq<char>,
    g: Seq<(Seq<char>, Seq<char>)>,
    u: Seq<char>,
    method: PushMethod,
) -> bool {
    exists|fams: Seq<MetricFamilyV>|
        #[trigger] gather_ok(fams, all_families(entries), None::<Seq<char>>, Seq::empty())
            && match push_failure(job, g, fams) {
            Some(e) => r == Result::<PushRequest, Error>::Err(e),
            None => r matches Ok(req) && req.method == method && req.url@ == push_url(u, job, g)
                && req.body@ == push_body(fams) && req.content_type@ == PROTOBUF_FORMAT@,
        }
}

/// What pushing a run of collectors returns: the first failing
/// registration's error; else, for some snapshot of the fresh registry that
/// filed them all, whatever pushing that snapshot returns.
pub open spec fn collector_push_ok(
    r: Result<PushRequest, Error>,
    cs: Seq<Collector>,
    job: Seq<char>,
    g: Seq<(Seq<char>, Seq<char>)>,
    u: Seq<char>,
    method: PushMethod,
) -> bool {
    match register_all(cs, Seq::empty(), Seq::empty(), Seq::empty()) {
        Err(e) => r == Result::<PushRequest, Error>::Err(e),
        Ok(st) => pushed_snapshot_of(r, st.0, job, g, u, method),
    }
}

/// Build a replacing push from a few collectors alone: a fresh registry
/// registers them, its snapshot becomes the body.
pub fn push_collector(
    job: &str,
    grouping: &Vec<(String, String)>,
    url: &str,
    collectors: Vec<Collector>,
    basic_auth: Option<BasicAuthentication>,
) -> (r: Result<PushRequest, Error>)
    requires
        forall|i: int| 0 <= i < collectors@.len() ==> (#[trigger] collectors@[i]).wf(),
    ensures
        collector_push_ok(
            r,
            collectors@,
            job@,
            grouping.deep_view(),
            url@,
            PushMethod::Put,
        ),
{
    push_from_collector(job, grouping, url, collectors, PushMethod::Put, basic_auth)
}

/// Build an adding push from a few collectors alone.
pub fn push_add_collector(
    job: &str,
    grouping: &Vec<(String, String)>,
    url: &str,
    collectors: Vec<Collector>,
    basic_auth: Option<BasicAuthentication>,
) -> (r: Result<PushRequest, Error>)
    requires
        forall|i: int| 0 <= i < collectors@.len() ==> (#[trigger] collectors@[i]).wf(),
    ensures
        collector_push_ok(
            r,
            collectors@,
            job@,
            grouping.deep_view(),
            url@,
            PushMethod::Post,
        ),
{
    push_from_collector(job, grouping, url, collectors, PushMethod::Post, basic_auth)
}

/// Gather the given collectors through a fresh registry and push the
/// result.
fn push_from_collector(
    job: &str,
    grouping: &Vec<(String, String)>,
    url: &str,
    collectors: Vec<Collector>,
    method: PushMethod,
    basic_auth: Option<BasicAuthentication>,
) -> (r: Result<PushRequest, Error>)
    requires
        forall|i: int| 0 <= i < collectors@.len() ==> (#[trigger] collectors@[i]).wf(),
    ensures
        collector_push_ok(r, collectors@, job@, grouping.deep_view(), url@, method),
{
    let ghost all = collectors@;
    let mut registry = Registry::new();
    let mut cs = collectors;
    let mut outcome: Result<(), Error> = Ok(());
    proof {
        assert(registry.entries() =~= Seq::<(u64, Collector)>::empty());
        assert(registry.id_set() =~= Seq::<u64>::empty());
        assert(registry.dims() =~= Seq::<(Seq<char>, u64)>::empty());
    }
    while cs.len() > 0
        invariant_except_break
            outcome is Ok,
            register_all(all, Seq::empty(), Seq::empty(), Seq::empty()) == register_all(
                cs@,
                registry.entries(),
                registry.id_set(),
                registry.dims(),
            ),
        invariant
            registry.wf(),
            registry.prefix_view() is None,
            registry.common_labels().len() == 0,
            forall|i: int| 0 <= i < cs@.len() ==> (#[trigger] cs@[i]).wf(),
        ensures
            registry.wf(),
            registry.prefix_view() is None,
            registry.common_labels().len() == 0,
            match outcome {
                Ok(_) => register_all(all, Seq::empty(), Seq::empty(), Seq::empty()) == Result::<
                    (Seq<(u64, Collector)>, Seq<u64>, Seq<(Seq<char>, u64)>),
                    Error,
                >::Ok((registry.entries(), registry.id_set(), registry.dims())),
                Err(e) => register_all(all, Seq::empty(), Seq::empty(), Seq::empty()) == Result::<
                    (Seq<(u64, Collector)>, Seq<u64>, Seq<(Seq<char>, u64)>),
                    Error,
                >::Err(e),
            },
        decreases cs.len(),
    {
        let ghost pre = cs@;
        let ghost pre_reg = registry;
        let c = cs.remove(0);
        let ghost cv = c;
        proof {
            assert(cs@ =~= pre.drop_first());
            assert(c == pre[0]);
            assert forall|i: int| 0 <= i < cs@.len() implies (#[trigger] cs@[i]).wf() by {
                assert(cs@[i] == pre[i + 1]);
            }
        }
        match registry.register(c) {
            Ok(_) => {
                proof {
                    let cid = crate::registry::collector_identity(cv.descs_view());
                    assert(!(exists|i: int|
                        0 <= i < pre_reg.entries().len() && (#[trigger] pre_reg.entries()[i]).0
                            == cid)) by {
                        if exists|i: int|
                            0 <= i < pre_reg.entries().len() && (#[trigger] pre_reg.entries()[i]).0
                                == cid {
                            let i = choose|i: int|
                                0 <= i < pre_reg.entries().len() && (
                                #[trigger] pre_reg.entries()[i]).0 == cid;
                            assert(pre_reg.ids()[i] == cid);
                            assert(pre_reg.has_collector(cid));
                        }
                    }
                    assert(register_all(pre, pre_reg.entries(), pre_reg.id_set(), pre_reg.dims())
                        == register_all(
                        cs@,
                        registry.entries(),
                        registry.id_set(),
                        registry.dims(),
                    ));
                }
            },
            Err(e) => {
                proof {
                    let cid = crate::registry::collector_identity(cv.descs_view());
                    let v = crate::registry::validate_descs(
                        cv.descs_view(),
                        pre_reg.id_set(),
                        pre_reg.dims(),
                        Seq::empty(),
                    );
                    if v is None {
                        assert(pre_reg.has_collector(cid));
                        let i = choose|i: int|
                            0 <= i < pre_reg.ids().len() && pre_reg.ids()[i] == cid;
                        assert(pre_reg.entries()[i].0 == cid);
                    }
                    assert(register_all(pre, pre_reg.entries(), pre_reg.id_set(), pre_reg.dims())
                        == Result::<
                        (Seq<(u64, Collector)>, Seq<u64>, Seq<(Seq<char>, u64)>),
                        Error,
                    >::Err(e));
                }
                outcome = Err(e);
                break;
            },
        }
    }
    match outcome {
        Ok(_) => {},
        Err(e) => {
            return Err(e);
        },
    }
    let mfs = registry.gather();

    proof {
        assert(registry.common_labels() =~= Seq::<crate::proto::LabelPairV>::empty());
        assert(registry.prefix_view() == None::<Seq<char>>);
        assert(gather_ok(
            mfs.deep_view(),
            all_families(registry.entries()),
            None::<Seq<char>>,
            Seq::empty(),
        ));
    }
    let r = push(job, grouping, url, &mfs, method, basic_auth);
    r
}

} // verus!
