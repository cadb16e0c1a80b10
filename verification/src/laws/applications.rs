//! `fastcgi_pass`: what an application is sent, and what becomes of its response.

use vstd::prelude::*;
use vstd::string::*;

use crate::bytes;
use crate::config::FastCgiConf;
use crate::config::FastCgiParam;
use crate::config::ProxyTarget;
use crate::ctx;
use crate::ctx::CtxView;
use crate::fastcgi;
use crate::fastcgi::CgiHead;
use crate::fastcgi::Collected;
use crate::fastcgi::DrainEnd;
use crate::fcgi_proto as proto;
use crate::fcgi_proto::RecordType;
use crate::http;
use crate::pattern;
use crate::proxy;

verus! {

// ---------------------------------------------------------------- the request

/// What an application hears on one of the streams of its request: the bodies of the
/// records of that number, in order. Nothing where the bytes are no records.
pub open spec fn heard(buf: Seq<u8>, number: u8) -> Option<Seq<u8>>
    decreases buf.len(),
{
    if buf.len() == 0 {
        Some(Seq::empty())
    } else {
        match proto::record_of(buf) {
            Ok(r) => if r.total <= 0 || r.total > buf.len() {
                None
            } else {
                match heard(buf.subrange(r.total, buf.len() as int), number) {
                    Some(rest) => Some(
                        if r.ty == number {
                            r.body + rest
                        } else {
                            rest
                        },
                    ),
                    None => None,
                }
            },
            Err(_) => None,
        }
    }
}

/// Whether the last record of a number is an empty one, which is what ends a stream.
pub open spec fn is_ended(buf: Seq<u8>, number: u8) -> bool
    decreases buf.len(),
{
    match proto::record_of(buf) {
        Ok(r) => if r.total <= 0 || r.total > buf.len() {
            false
        } else {
            let rest = buf.subrange(r.total, buf.len() as int);
            is_ended(rest, number) || (r.ty == number && r.body.len() == 0 && heard(rest, number)
                == Some(Seq::<u8>::empty()))
        },
        Err(_) => false,
    }
}

proof fn lemma_record_heard(ty: RecordType, body: Seq<u8>, rest: Seq<u8>, number: u8)
    requires
        body.len() <= proto::MAX_CONTENT,
        heard(rest, number) is Some,
    ensures
        heard(proto::record_bytes(ty, body) + rest, number) == Some(
            if ty.code() == number {
                body + heard(rest, number)->0
            } else {
                heard(rest, number)->0
            },
        ),
        is_ended(rest, number) ==> is_ended(proto::record_bytes(ty, body) + rest, number),
        ty.code() == number && body.len() == 0 && heard(rest, number) == Some(Seq::<u8>::empty())
            ==> is_ended(proto::record_bytes(ty, body) + rest, number),
{
    let r = proto::record_bytes(ty, body);
    let all = r + rest;
    proto::law_records_read_back(ty, body, rest);
    assert(r.len() >= 8) by {
        assert(proto::header_bytes(
            ty,
            body.len(),
            proto::padding_for(body.len() as int) as u8,
        ).len() == 8) by {
            bytes::lemma_be_len(proto::REQUEST_ID as nat, 2);
            bytes::lemma_be_len(body.len(), 2);
        }
    }
    assert(all.subrange(r.len() as int, all.len() as int) =~= rest);
}

#[verifier::spinoff_prover]
#[verifier::rlimit(60)]
proof fn lemma_stream_heard(ty: RecordType, s: Seq<u8>, rest: Seq<u8>, number: u8)
    requires
        heard(rest, number) is Some,
    ensures
        heard(proto::stream_bytes(ty, s) + rest, number) == Some(
            if ty.code() == number {
                s + heard(rest, number)->0
            } else {
                heard(rest, number)->0
            },
        ),
        is_ended(rest, number) ==> is_ended(proto::stream_bytes(ty, s) + rest, number),
        ty.code() == number && heard(rest, number) == Some(Seq::<u8>::empty()) ==> is_ended(
            proto::stream_bytes(ty, s) + rest,
            number,
        ),
    decreases s.len(),
{
    let none = Seq::<u8>::empty();
    if s.len() == 0 {
        assert(s =~= none);
        assert(proto::stream_bytes(ty, s) + rest =~= proto::record_bytes(ty, none) + rest);
        lemma_record_heard(ty, none, rest, number);
    } else {
        let n = if s.len() <= proto::MAX_CONTENT {
            s.len() as int
        } else {
            proto::MAX_CONTENT as int
        };
        let first = s.subrange(0, n);
        let more = s.subrange(n, s.len() as int);
        let tail = proto::stream_bytes(ty, more) + rest;
        proto::lemma_first_record(ty, s, n);
        assert(proto::stream_bytes(ty, s) + rest =~= proto::record_bytes(ty, first) + tail);
        lemma_stream_heard(ty, more, rest, number);
        lemma_record_heard(ty, first, tail, number);
        if ty.code() == number {
            assert(first + (more + heard(rest, number)->0) =~= s + heard(rest, number)->0);
        }
    }
}

/// An application hears the whole request and nothing else: the body of the request on its
/// input, the CGI environment as its parameters, each of them ended, and in front of them
/// that it is to answer a request, and whether to keep the connection.
pub proof fn law_an_application_hears_the_request(c: CtxView, conf: FastCgiConf)
    ensures
        ({
            let sent = fastcgi::request_bytes(c, conf);
            &&& heard(sent, 5) == Some(c.env.body@)
            &&& is_ended(sent, 5)
            &&& heard(sent, 4) == Some(fastcgi::environment(c, conf))
            &&& is_ended(sent, 4)
            &&& heard(sent, 1) == Some(
                seq![
                    0u8,
                    1,
                    if conf.keep_conn {
                        1
                    } else {
                        0
                    },
                    0,
                    0,
                    0,
                    0,
                    0,
                ],
            )
            &&& sent[1] == 1
        }),
{
    let none = Seq::<u8>::empty();
    let begin = proto::begin_body(conf.keep_conn);
    let env = fastcgi::environment(c, conf);
    let input = proto::stream_bytes(RecordType::Stdin, c.env.body@) + none;
    let params = proto::stream_bytes(RecordType::Params, env) + input;
    let sent = fastcgi::request_bytes(c, conf);
    bytes::lemma_be_len(proto::ROLE_RESPONDER as nat, 2);
    bytes::lemma_pow256();
    reveal_with_fuel(bytes::be, 3);
    assert(begin =~= seq![
        0u8,
        1,
        if conf.keep_conn {
            1
        } else {
            0
        },
        0,
        0,
        0,
        0,
        0,
    ]);
    assert(sent =~= proto::record_bytes(RecordType::BeginRequest, begin) + params);
    proto::law_records_read_back(RecordType::BeginRequest, begin, params);
    lemma_stream_heard(RecordType::Stdin, c.env.body@, none, 5);
    lemma_stream_heard(RecordType::Stdin, c.env.body@, none, 4);
    lemma_stream_heard(RecordType::Stdin, c.env.body@, none, 1);
    lemma_stream_heard(RecordType::Params, env, input, 5);
    lemma_stream_heard(RecordType::Params, env, input, 4);
    lemma_stream_heard(RecordType::Params, env, input, 1);
    lemma_record_heard(RecordType::BeginRequest, begin, params, 5);
    lemma_record_heard(RecordType::BeginRequest, begin, params, 4);
    lemma_record_heard(RecordType::BeginRequest, begin, params, 1);
    assert(c.env.body@ + none =~= c.env.body@);
    assert(env + none =~= env);
    assert(begin + none =~= begin);
}

/// Whether bytes hold a name and its value as a pair.
pub open spec fn has_pair(b: Seq<u8>, name: Seq<u8>, v: Seq<u8>) -> bool {
    let p = proto::pair_bytes(name, v);
    exists|i: int| 0 <= i && i + p.len() <= b.len() && #[trigger] b.subrange(i, i + p.len()) == p
}

proof fn lemma_pair_in(a: Seq<u8>, name: Seq<u8>, v: Seq<u8>, z: Seq<u8>)
    ensures
        has_pair(a + proto::pair_bytes(name, v) + z, name, v),
{
    let p = proto::pair_bytes(name, v);
    let b = a + p + z;
    assert(b.subrange(a.len() as int, (a.len() + p.len()) as int) =~= p);
}

proof fn lemma_pair_within(x: Seq<u8>, a: Seq<u8>, z: Seq<u8>, name: Seq<u8>, v: Seq<u8>)
    requires
        has_pair(x, name, v),
    ensures
        has_pair(a + x + z, name, v),
{
    let p = proto::pair_bytes(name, v);
    let i = choose|i: int|
        0 <= i && i + p.len() <= x.len() && #[trigger] x.subrange(i, i + p.len()) == p;
    let b = a + x + z;
    let j = a.len() + i;
    assert(b.subrange(j, j + p.len()) =~= x.subrange(i, i + p.len()));
}

proof fn lemma_param_in(c: CtxView, ps: Seq<FastCgiParam>, n: int, k: int)
    requires
        0 <= k < n <= ps.len(),
        !(ps[k].if_not_empty && ctx::shown(c, ps[k].value).len() == 0),
    ensures
        has_pair(fastcgi::param_bytes(c, ps, n), ps[k].name@, ctx::shown(c, ps[k].value)),
    decreases n,
{
    let none = Seq::<u8>::empty();
    let before = fastcgi::param_bytes(c, ps, n - 1);
    let all = fastcgi::param_bytes(c, ps, n);
    let v = ctx::shown(c, ps[k].value);
    if k == n - 1 {
        assert(all =~= before + proto::pair_bytes(ps[k].name@, v) + none);
        lemma_pair_in(before, ps[k].name@, v, none);
    } else {
        lemma_param_in(c, ps, n - 1, k);
        let z = all.subrange(before.len() as int, all.len() as int);
        assert(all =~= none + before + z);
        lemma_pair_within(before, none, z, ps[k].name@, v);
    }
}

proof fn lemma_header_in(hs: Seq<http::Field>, n: int, k: int)
    requires
        0 <= k < n <= hs.len(),
        !bytes::same_name(hs[k].0, bytes::utf8("content-type"@)),
        !bytes::same_name(hs[k].0, bytes::utf8("content-length"@)),
    ensures
        has_pair(fastcgi::header_params(hs, n), proto::param_name(hs[k].0), hs[k].1),
    decreases n,
{
    let none = Seq::<u8>::empty();
    let before = fastcgi::header_params(hs, n - 1);
    let all = fastcgi::header_params(hs, n);
    let name = proto::param_name(hs[k].0);
    if k == n - 1 {
        assert(all =~= before + proto::pair_bytes(name, hs[k].1) + none);
        lemma_pair_in(before, name, hs[k].1, none);
    } else {
        lemma_header_in(hs, n - 1, k);
        let z = all.subrange(before.len() as int, all.len() as int);
        assert(all =~= none + before + z);
        lemma_pair_within(before, none, z, name, hs[k].1);
    }
}

/// Every parameter that is configured is in the environment, with the value it has for
/// this request; an empty one only where it may be empty.
pub proof fn law_parameters_are_in_the_environment(c: CtxView, conf: FastCgiConf, k: int)
    requires
        0 <= k < conf.params@.len(),
        !(conf.params@[k].if_not_empty && ctx::shown(c, conf.params@[k].value).len() == 0),
    ensures
        has_pair(
            fastcgi::environment(c, conf),
            conf.params@[k].name@,
            ctx::shown(c, conf.params@[k].value),
        ),
{
    let hs = http::fields(c.env.req.headers@);
    let x = fastcgi::param_bytes(c, conf.params@, conf.params@.len() as int);
    let none = Seq::<u8>::empty();
    let z = fastcgi::header_params(hs, hs.len() as int);
    lemma_param_in(c, conf.params@, conf.params@.len() as int, k);
    lemma_pair_within(x, none, z, conf.params@[k].name@, ctx::shown(c, conf.params@[k].value));
    assert(none + x + z =~= fastcgi::environment(c, conf));
}

/// A parameter that is empty and must not be is left out.
pub proof fn law_empty_parameters_are_left_out(c: CtxView, ps: Seq<FastCgiParam>, n: int)
    requires
        0 < n <= ps.len(),
        ps[n - 1].if_not_empty,
        ctx::shown(c, ps[n - 1].value).len() == 0,
    ensures
        fastcgi::param_bytes(c, ps, n) == fastcgi::param_bytes(c, ps, n - 1),
{
    assert(fastcgi::param_bytes(c, ps, n) =~= fastcgi::param_bytes(c, ps, n - 1));
}

/// Every header of the client is in the environment, with its value, under its name in the
/// form of CGI; those that have names of their own there are left to the configuration.
pub proof fn law_headers_are_in_the_environment(c: CtxView, conf: FastCgiConf, k: int)
    requires
        0 <= k < c.env.req.headers@.len(),
        !bytes::same_name(c.env.req.headers@[k].name@, bytes::utf8("content-type"@)),
        !bytes::same_name(c.env.req.headers@[k].name@, bytes::utf8("content-length"@)),
    ensures
        has_pair(
            fastcgi::environment(c, conf),
            proto::param_name(c.env.req.headers@[k].name@),
            c.env.req.headers@[k].value@,
        ),
{
    let hs = http::fields(c.env.req.headers@);
    let a = fastcgi::param_bytes(c, conf.params@, conf.params@.len() as int);
    let none = Seq::<u8>::empty();
    let x = fastcgi::header_params(hs, hs.len() as int);
    assert(hs[k] == http::field(c.env.req.headers@[k]));
    lemma_header_in(hs, hs.len() as int, k);
    lemma_pair_within(x, a, none, proto::param_name(hs[k].0), hs[k].1);
    assert(a + x + none =~= fastcgi::environment(c, conf));
}

/// The name of a header in the form of CGI is its own behind `HTTP_`, in upper case and
/// with `_` for `-`.
pub proof fn law_names_take_the_form_of_cgi(name: Seq<u8>, i: int)
    ensures
        proto::param_name(name).len() == 5 + name.len(),
        bytes::starts(proto::param_name(name), bytes::utf8("HTTP_"@)),
        0 <= i < name.len() ==> {
            let b = proto::param_name(name)[5 + i];
            &&& name[i] == 45 ==> b == 95
            &&& 97 <= name[i] <= 122 ==> b == name[i] - 32
            &&& name[i] != 45 && !(97 <= name[i] <= 122) ==> b == name[i]
        },
{
    reveal_strlit("HTTP_");
    let p = seq![72u8, 84, 84, 80, 95];
    bytes::lemma_ascii_text(p);
    assert(bytes::ascii_text(p) =~= "HTTP_"@);
    assert(proto::param_name(name).subrange(0, 5) =~= bytes::utf8("HTTP_"@));
}

/// Without a split the whole URI is the script; with one, what its first group captured,
/// and the path behind it what the second did. A script that is a directory is completed
/// by the index.
pub proof fn law_the_script_is_named(c: CtxView, conf: FastCgiConf, script: Seq<u8>, info: Seq<u8>)
    requires
        match conf.split_path_info {
            None => script == c.uri && info.len() == 0,
            Some(re) => match pattern::captured(re@, c.uri) {
                Some(g) => g.len() >= 2 && script == g[0] && info == g[1],
                None => script == c.uri && info.len() == 0,
            },
        },
    ensures
        ({
            let next = fastcgi::scripted(c, conf);
            &&& next.fastcgi_path_info == info
            &&& next.fastcgi_script_name == match conf.index {
                Some(index) => if script.len() > 0 && script.last() == 47 {
                    script + index@
                } else {
                    script
                },
                None => script,
            }
            &&& next.uri == c.uri && next.args == c.args
        }),
{
    assert(info.len() == 0 ==> info =~= Seq::<u8>::empty());
}

/// A request goes to the application that is configured, at the port of FastCGI where an
/// address made up of variables names none.
pub proof fn law_requests_reach_the_application(c: CtxView, t: ProxyTarget, peer: Seq<u8>)
    ensures
        t matches ProxyTarget::Addr { host, port } ==> fastcgi::target_of(c, t, Some(peer)) == Some(
            host@ + seq![58u8] + bytes::decimal(port as nat),
        ),
        t matches ProxyTarget::Unix(path) ==> fastcgi::target_of(c, t, Some(peer)) == Some(
            bytes::utf8("unix:"@) + path@,
        ),
        t is Upstream ==> fastcgi::target_of(c, t, None) is None,
        t is Upstream && bytes::has(peer, 58) ==> fastcgi::target_of(c, t, Some(peer)) == Some(
            peer,
        ),
        t matches ProxyTarget::Dynamic(x) ==> {
            let a = ctx::shown(c, x);
            &&& a.len() == 0 ==> fastcgi::target_of(c, t, Some(peer)) is None
            &&& a.len() > 0 && bytes::has(a, 58) ==> fastcgi::target_of(c, t, Some(peer)) == Some(a)
            &&& a.len() > 0 && !bytes::has(a, 58) ==> fastcgi::target_of(c, t, Some(peer)) == Some(
                a + bytes::utf8(":9000"@),
            )
        },
{
}

// ---------------------------------------------------------------- the response

/// A response ends with the record that says so. One that the application refused is no
/// response, and neither is what cannot be read as records.
pub proof fn law_responses_end_where_they_say(
    body: Seq<u8>,
    rest: Seq<u8>,
    app: u32,
)
    requires
        8 <= body.len() <= proto::MAX_CONTENT,
    ensures
        ({
            let d = fastcgi::drained(
                proto::record_bytes(RecordType::EndRequest, body) + rest,
                0,
                app,
            );
            &&& d.out.len() == 0
            &&& d.app_status == bytes::be_value(body.subrange(0, 4)) as u32
            &&& body[4] == 0 <==> d.end == DrainEnd::Ended
            &&& body[4] != 0 <==> d.end == DrainEnd::Refused
        }),
{
    let r = proto::record_bytes(RecordType::EndRequest, body);
    let all = r + rest;
    proto::law_records_read_back(RecordType::EndRequest, body, rest);
    assert(all.subrange(0, all.len() as int) =~= all);
    assert(r.len() >= 8) by {
        bytes::lemma_be_len(proto::REQUEST_ID as nat, 2);
        bytes::lemma_be_len(body.len(), 2);
    }
}

/// What an application logs is not part of its response.
pub proof fn law_logs_are_not_payload(log: Seq<u8>, rest: Seq<u8>, app: u32)
    requires
        log.len() <= proto::MAX_CONTENT,
    ensures
        fastcgi::drained(
            proto::record_bytes(RecordType::Stderr, log) + rest,
            0,
            app,
        ).out == fastcgi::drained(
            proto::record_bytes(RecordType::Stderr, log) + rest,
            proto::record_bytes(RecordType::Stderr, log).len() as int,
            app,
        ).out,
{
    let r = proto::record_bytes(RecordType::Stderr, log);
    let all = r + rest;
    proto::law_records_read_back(RecordType::Stderr, log, rest);
    assert(all.subrange(0, all.len() as int) =~= all);
    bytes::lemma_be_len(proto::REQUEST_ID as nat, 2);
    bytes::lemma_be_len(log.len(), 2);
    let next = fastcgi::drained(all, r.len() as int, app);
    assert(Seq::<u8>::empty() + next.out =~= next.out);
}

/// The head of a response ends at its first empty line, and the body is all that is behind
/// it.
pub proof fn law_the_empty_line_parts_head_and_body(head: Seq<u8>, body: Seq<u8>, cr: bool)
    requires
        forall|i: int|
            0 <= i < head.len() && #[trigger] head[i] == 10 ==> i + 1 < head.len() && head[i + 1]
                != 10 && !(head[i + 1] == 13 && (i + 2 >= head.len() || head[i + 2] == 10)),
    ensures
        ({
            let gap = if cr {
                seq![10u8, 13, 10]
            } else {
                seq![10u8, 10]
            };
            fastcgi::empty_line(head + gap + body, 0) == Some(
                (head.len() as int, (head.len() + gap.len()) as int),
            )
        }),
{
    let gap = if cr {
        seq![10u8, 13, 10]
    } else {
        seq![10u8, 10]
    };
    let all = head + gap + body;
    assert forall|i: int| 0 <= i < head.len() implies all[i] == head[i] by {}
    assert(all[head.len() as int] == 10);
    assert(all[head.len() as int + 1] == gap[1]);
    if cr {
        assert(all[head.len() as int + 2] == 10);
    }
    lemma_no_empty_line(head, gap + body, 0);
    assert(head + (gap + body) =~= all);
}

proof fn lemma_no_empty_line(head: Seq<u8>, rest: Seq<u8>, i: int)
    requires
        0 <= i <= head.len(),
        forall|k: int|
            0 <= k < head.len() && #[trigger] head[k] == 10 ==> k + 1 < head.len() && head[k + 1]
                != 10 && !(head[k + 1] == 13 && (k + 2 >= head.len() || head[k + 2] == 10)),
    ensures
        fastcgi::empty_line(head + rest, i) == fastcgi::empty_line(head + rest, head.len() as int),
    decreases head.len() - i,
{
    let all = head + rest;
    if i < head.len() {
        assert(all[i] == head[i]);
        if head[i] == 10 {
            assert(all[i + 1] == head[i + 1]);
            if head[i + 1] == 13 {
                assert(all[i + 2] == head[i + 2]);
            }
        }
        lemma_no_empty_line(head, rest, i + 1);
    }
}

/// A response that arrived in full is answered with: the status and the headers of its
/// head, and the body behind it. Without a head it is none, and neither is the silence of
/// a script that failed.
pub proof fn law_a_full_response_is_answered_with(
    c: CtxView,
    conf: FastCgiConf,
    out: Seq<u8>,
    app: u32,
)
    ensures
        out.len() == 0 && app != 0 ==> (fastcgi::completed_reply(c, conf, out, app).1 matches Err(e)
            && e == 502),
        out.len() == 0 && app == 0 ==> (fastcgi::completed_reply(c, conf, out, app).1 matches Ok(p)
            && p.resp.status == 200 && p.body is None),
        out.len() > 0 && out.last() != 10 && fastcgi::empty_line(out, 0) is None ==> (
        fastcgi::completed_reply(c, conf, out, app).1 matches Err(e) && e == 502),
        fastcgi::empty_line(out, 0) matches Some((h, at)) ==> {
            let head = fastcgi::cgi_of(conf, out.subrange(0, h));
            fastcgi::completed_reply(c, conf, out, app).1 matches Ok(p) && p.body == Some(
                out.subrange(at, out.len() as int),
            ) && p.resp.status == fastcgi::final_status(head) && p.resp.headers == head.headers
        },
{
}

/// Every header of an application is passed on, in order, but for its status, those that
/// describe our hop, and those that are hidden.
pub proof fn law_an_applications_headers_pass(
    conf: FastCgiConf,
    ls: Seq<Seq<u8>>,
    n: int,
    name: Seq<u8>,
    v: Seq<u8>,
)
    requires
        0 < n <= ls.len(),
        fastcgi::cgi_field(ls[n - 1]) == Some((name, v)),
    ensures
        ({
            let before = fastcgi::cgi_head(conf, ls, n - 1);
            let h = fastcgi::cgi_head(conf, ls, n);
            &&& h.headers == if bytes::same_name(name, bytes::utf8("status"@)) || bytes::same_name(
                name,
                bytes::utf8("connection"@),
            ) || bytes::same_name(name, bytes::utf8("keep-alive"@)) || bytes::same_name(
                name,
                bytes::utf8("transfer-encoding"@),
            ) || bytes::same_name(name, bytes::utf8("upgrade"@)) || bytes::same_name(
                name,
                bytes::utf8("content-length"@),
            ) || proxy::hides(conf.hide_headers@, name, 0) {
                before.headers
            } else {
                before.headers.push((name, v))
            }
            &&& !bytes::same_name(name, bytes::utf8("status"@)) ==> h.status == before.status
            &&& !bytes::same_name(name, bytes::utf8("content-length"@)) ==> h.length
                == before.length
        }),
{
}

/// A line of a head is a name and a value with a colon between them; the space around them
/// does not count.
pub proof fn law_lines_are_names_and_values(name: Seq<u8>, v: Seq<u8>)
    requires
        !bytes::has(name, 58),
        crate::text::decoded(name) is Some,
        crate::text::decoded(v) is Some,
        bytes::trimmed(name).len() > 0,
    ensures
        fastcgi::cgi_field(name + seq![58u8] + v) == Some((bytes::trimmed(name), bytes::trimmed(v))),
{
    let l = name + seq![58u8] + v;
    bytes::lemma_find(name, 58, 0);
    assert forall|j: int| 0 <= j < name.len() implies l[j] != 58 by {
        assert(l[j] == name[j]);
    }
    bytes::lemma_find_is(l, 58, 0, name.len() as int);
    assert(l.subrange(0, name.len() as int) =~= name);
    assert(l.subrange(name.len() as int + 1, l.len() as int) =~= v);
}

proof fn lemma_digits_are_words(d: Seq<u8>, tail: Seq<u8>, i: int)
    requires
        bytes::all_digits(d),
        0 <= i <= d.len(),
        tail.len() > 0 ==> tail[0] == 32,
    ensures
        fastcgi::word_len(d + tail, i) == d.len(),
    decreases d.len() - i,
{
    let s = d + tail;
    if i < d.len() {
        assert(s.subrange(i, s.len() as int)[0] == d[i]);
        assert(bytes::is_digit(d[i]));
        lemma_digits_are_words(d, tail, i + 1);
    } else if tail.len() > 0 {
        assert(s.subrange(i, s.len() as int)[0] == 32);
    }
}

/// A `Status` header sets the status that it spells, whatever words follow it.
pub proof fn law_the_status_is_what_it_spells(
    h: CgiHead,
    conf: FastCgiConf,
    name: Seq<u8>,
    status: u16,
    words: Seq<u8>,
)
    requires
        bytes::same_name(name, bytes::utf8("status"@)),
        words.len() > 0 ==> words[0] == 32,
    ensures
        fastcgi::with_cgi_field(
            h,
            conf,
            (name, bytes::decimal(status as nat) + words),
        ).status == status,
{
    let d = bytes::decimal(status as nat);
    let v = d + words;
    bytes::lemma_decimal(status as nat);
    assert(bytes::is_digit(d[0]));
    assert(v[0] == d[0]);
    assert(bytes::trimmed_start(v) == v);
    lemma_digits_are_words(d, words, 0);
    assert(v.subrange(0, d.len() as int) =~= d);
}

/// A response is held back whole while it fits, and streamed once it does not, or at once
/// where buffering is off; but never before its head is complete, and nothing grows without
/// bound.
pub proof fn law_responses_are_held_while_they_fit(
    out: Seq<u8>,
    conf: FastCgiConf,
    at: usize,
)
    requires
        at <= out.len(),
    ensures
        fastcgi::judged(out, Some(at), conf).1 == Collected::Streaming(at) <==> !conf.buffering
            || out.len() - at > conf.buffer_budget,
        conf.buffering && out.len() - at <= conf.buffer_budget ==> fastcgi::judged(
            out,
            Some(at),
            conf,
        ).1 == if out.len() > 67108864 {
            Collected::Fail(502)
        } else {
            Collected::More
        },
        fastcgi::empty_line(out, 0) is None ==> fastcgi::judged(out, None, conf).1 == if out.len()
            > 262144 {
            Collected::Fail(502)
        } else {
            Collected::More
        },
{
}

/// A response has the status it spells, 200 without one, and 302 where it leads elsewhere
/// without one.
pub proof fn law_responses_have_a_status(conf: FastCgiConf, ls: Seq<Seq<u8>>, n: int)
    requires
        0 < n <= ls.len(),
    ensures
        ({
            let none = fastcgi::cgi_head(conf, ls, 0);
            let before = fastcgi::cgi_head(conf, ls, n - 1);
            let h = fastcgi::cgi_head(conf, ls, n);
            &&& none.status == 200 && none.headers.len() == 0 && !none.located && none.length is None
            &&& fastcgi::cgi_field(ls[n - 1]) is None ==> h == before
            &&& (fastcgi::cgi_field(ls[n - 1]) matches Some(f) ==> {
                &&& bytes::same_name(f.0, bytes::utf8("status"@)) ==> h.status
                    == fastcgi::cgi_status(f.1)
                &&& h.headers.len() > before.headers.len() && bytes::same_name(
                    f.0,
                    bytes::utf8("location"@),
                ) ==> h.located
                &&& !bytes::same_name(f.0, bytes::utf8("location"@)) ==> h.located
                    == before.located
            })
            &&& h.located && h.status == 200 ==> fastcgi::cgi_resp(h).status == 302
            &&& !h.located || h.status != 200 ==> fastcgi::cgi_resp(h).status == h.status
            &&& fastcgi::cgi_resp(h).headers == h.headers
        }),
{
}

/// The length an application declares is a number.
pub proof fn law_declared_lengths_are_numbers(h: CgiHead, conf: FastCgiConf, n: u64)
    ensures
        fastcgi::with_cgi_field(
            h,
            conf,
            (bytes::utf8("content-length"@), bytes::decimal(n as nat)),
        ).length == Some(n),
{
    bytes::lemma_decimal(n as nat);
    let d = bytes::decimal(n as nat);
    assert(bytes::is_digit(d[0]) && bytes::is_digit(d.last()));
    crate::laws::serving::law_text_without_white_ends_is_kept(d);
    let l = bytes::utf8("content-length"@);
    assert(bytes::same_name(l, l));
    reveal_strlit("content-length");
    reveal_strlit("status");
    bytes::lemma_ascii_len("content-length"@);
    bytes::lemma_ascii_len("status"@);
    assert(bytes::lowered(l).len() == 14);
    assert(bytes::lowered(bytes::utf8("status"@)).len() == 6);
}

/// The type and the length of a request's body have names of their own in the environment,
/// and are not there a second time.
pub proof fn law_the_bodys_headers_are_not_repeated(hs: Seq<http::Field>, n: int)
    requires
        0 < n <= hs.len(),
        bytes::same_name(hs[n - 1].0, bytes::utf8("content-type"@)) || bytes::same_name(
            hs[n - 1].0,
            bytes::utf8("content-length"@),
        ),
    ensures
        fastcgi::header_params(hs, n) == fastcgi::header_params(hs, n - 1),
{
    assert(fastcgi::header_params(hs, n - 1) + Seq::<u8>::empty() =~= fastcgi::header_params(
        hs,
        n - 1,
    ));
}

} // verus!
