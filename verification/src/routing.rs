//! Where an allowed request goes, and what comes back.

use vstd::prelude::*;
use crate::args::{Args, ArgsView};
use crate::error::Error;
use crate::text::push_str;

verus! {

broadcast use vstd::std_specs::hash::group_hash_axioms;

/// The upstream for a request on `bound_port`: the request's override
/// header, where such headers are enabled and the request has one; else
/// the destination mapped to the port, where there is one; else the
/// default destination.
pub open spec fn upstream_for(args: ArgsView, bound_port: u16, override_url: Option<Seq<char>>) -> Seq<
    char,
> {
    if args.enable_override_dest_url && override_url is Some {
        override_url->0
    } else if args.port_to_dest_urls.contains_key(bound_port) {
        args.port_to_dest_urls[bound_port]
    } else {
        args.dest_url
    }
}

/// The order of precedence: an enabled override header beats the port
/// mapping, and the port mapping beats the default destination.
pub proof fn lemma_upstream_precedence(args: ArgsView, bound_port: u16, override_url: Option<Seq<char>>)
    ensures
        args.enable_override_dest_url && override_url is Some ==> upstream_for(
            args,
            bound_port,
            override_url,
        ) == override_url->0,
        !(args.enable_override_dest_url && override_url is Some)
            && args.port_to_dest_urls.contains_key(bound_port) ==> upstream_for(
            args,
            bound_port,
            override_url,
        ) == args.port_to_dest_urls[bound_port],
        !(args.enable_override_dest_url && override_url is Some)
            && !args.port_to_dest_urls.contains_key(bound_port) ==> upstream_for(
            args,
            bound_port,
            override_url,
        ) == args.dest_url,
{
}

/// The view of an optional string.
pub open spec fn text_of(s: Option<&str>) -> Option<Seq<char>> {
    match s {
        Some(t) => Some(t@),
        None => None,
    }
}

/// Resolves the upstream for a request on `bound_port`.
pub fn resolve_upstream(args: &Args, bound_port: u16, override_url: Option<&str>) -> (url: String)
    ensures
        url@ == upstream_for(args@, bound_port, text_of(override_url)),
{
    if args.enable_override_dest_url {
        match override_url {
            Some(dest) => {
                return dest.to_owned();
            },
            None => {},
        }
    }
    match args.port_to_dest_urls.get(&bound_port) {
        Some(dest) => dest.clone(),
        None => args.dest_url.clone(),
    }
}

/// A header: a name and a value.
pub struct Header {
    pub name: String,
    pub value: String,
}

impl View for Header {
    type V = (Seq<char>, Seq<char>);

    open spec fn view(&self) -> (Seq<char>, Seq<char>) {
        (self.name@, self.value@)
    }
}

/// What is sent upstream for a request: the address, and the headers that
/// the gateway adds. Method and body are the request's own.
pub struct ForwardRequest {
    pub url: String,
    pub headers: Vec<Header>,
}

/// The headers that the gateway adds to a forwarded request: what it
/// accepts, and, where real-address headers are enabled, the client's
/// address.
pub open spec fn added_headers(forward_real_ip: bool, client_ip: Seq<char>) -> Seq<
    (Seq<char>, Seq<char>),
> {
    if forward_real_ip {
        seq![("accept"@, "text/html,application/xhtml+xml,*/*"@), ("x-real-ip"@, client_ip)]
    } else {
        seq![("accept"@, "text/html,application/xhtml+xml,*/*"@)]
    }
}

/// Plans the forwarding of a request that came in on `bound_port` from
/// `client_ip` for `path_and_query`.
pub fn plan_forward(
    args: &Args,
    bound_port: u16,
    override_url: Option<&str>,
    path_and_query: &str,
    client_ip: &str,
) -> (plan: ForwardRequest)
    ensures
        plan.url@ == upstream_for(args@, bound_port, text_of(override_url)) + path_and_query@,
        plan.headers@.map_values(|h: Header| h@) == added_headers(
            args@.enable_x_real_ip_header,
            client_ip@,
        ),
{
    let mut url = resolve_upstream(args, bound_port, override_url);
    push_str(&mut url, path_and_query);
    let mut headers: Vec<Header> = Vec::new();
    headers.push(
        Header {
            name: "accept".to_owned(),
            value: "text/html,application/xhtml+xml,*/*".to_owned(),
        },
    );
    if args.enable_x_real_ip_header {
        headers.push(Header { name: "x-real-ip".to_owned(), value: client_ip.to_owned() });
    }
    proof {
        assert(headers@.map_values(|h: Header| h@) =~= added_headers(
            args@.enable_x_real_ip_header,
            client_ip@,
        ));
    }
    ForwardRequest { url, headers }
}

/// A header of a response: a name, and a value as the bytes that came.
pub struct ReplyHeader {
    pub name: String,
    pub value: Vec<u8>,
}

impl View for ReplyHeader {
    type V = (Seq<char>, Seq<u8>);

    open spec fn view(&self) -> (Seq<char>, Seq<u8>) {
        (self.name@, self.value@)
    }
}

/// A response: status, headers and body.
pub struct Response {
    pub status: u16,
    pub headers: Vec<ReplyHeader>,
    pub body: Vec<u8>,
}

/// The characters of `s` as bytes, each cut to eight bits.
pub open spec fn bytes_of(s: Seq<char>) -> Seq<u8> {
    s.map_values(|c: char| c as u8)
}

/// The response to the client of a forwarded request: the upstream's
/// response as it came, or, where the upstream could not be reached or
/// read, status 500 with the plain text `Failed to query`.
pub fn relay(upstream: Option<Response>) -> (reply: Response)
    ensures
        match upstream {
            Some(response) => reply == response,
            None => reply.status == 500 && reply.body@ == bytes_of("Failed to query"@)
                && reply.headers@.map_values(|h: ReplyHeader| h@) == seq![
                ("content-type"@, bytes_of("text/plain; charset=utf-8"@)),
            ],
        },
{
    match upstream {
        Some(response) => response,
        None => {
            let mut headers: Vec<ReplyHeader> = Vec::new();
            headers.push(
                ReplyHeader {
                    name: "content-type".to_owned(),
                    value: ascii_bytes("text/plain; charset=utf-8"),
                },
            );
            proof {
                assert(headers@.map_values(|h: ReplyHeader| h@) =~= seq![
                    ("content-type"@, bytes_of("text/plain; charset=utf-8"@)),
                ]);
            }
            Response { status: 500, headers, body: ascii_bytes("Failed to query") }
        },
    }
}

/// Writes the characters of `s` as bytes, each cut to eight bits.
pub fn ascii_bytes(s: &str) -> (out: Vec<u8>)
    ensures
        out@ == bytes_of(s@),
{
    let v = crate::text::chars_of(s);
    let mut out: Vec<u8> = Vec::new();
    let mut i: usize = 0;
    while i < v.len()
        invariant
            i <= v.len(),
            v@ == s@,
            out@ == v@.take(i as int).map_values(|c: char| c as u8),
        decreases v.len() - i,
    {
        out.push(v[i] as u8);
        proof {
            assert(out@ =~= v@.take(i + 1).map_values(|c: char| c as u8));
        }
        i = i + 1;
    }
    proof {
        assert(v@.take(v.len() as int) =~= v@);
    }
    out
}

/// The status and plain-text body that answer a posted answer: 200 and
/// `Correct` where it earned the allowance, 400 and `Incorrect` where not.
pub fn verdict(outcome: &Result<u16, Error>) -> (reply: (u16, &'static str))
    ensures
        outcome is Ok ==> reply.0 == 200 && reply.1@ == "Correct"@,
        outcome is Err ==> reply.0 == 400 && reply.1@ == "Incorrect"@,
{
    match outcome {
        Ok(_) => (200, "Correct"),
        Err(_) => (400, "Incorrect"),
    }
}

/// The address that the gateway takes a request to come from: the
/// real-address header, where such headers are trusted and the request has
/// one, which then must not be empty; else the peer's address.
pub open spec fn client_address_of(
    trust_header: bool,
    real_ip: Option<Seq<char>>,
    peer: Option<Seq<char>>,
) -> Result<Seq<char>, Error> {
    if trust_header && real_ip is Some {
        if real_ip->0.len() == 0 {
            Err(Error::NoClientAddress)
        } else {
            Ok(real_ip->0)
        }
    } else {
        match peer {
            Some(ip) => Ok(ip),
            None => Err(Error::NoClientAddress),
        }
    }
}

/// Determines the address that a request comes from.
pub fn client_address(trust_header: bool, real_ip: Option<&str>, peer: Option<&str>) -> (r: Result<
    String,
    Error,
>)
    ensures
        match r {
            Ok(ip) => client_address_of(trust_header, text_of(real_ip), text_of(peer)) == Ok::<
                Seq<char>,
                Error,
            >(ip@),
            Err(e) => client_address_of(trust_header, text_of(real_ip), text_of(peer)) == Err::<
                Seq<char>,
                Error,
            >(e),
        },
{
    if trust_header {
        match real_ip {
            Some(ip) => {
                if ip.is_empty() {
                    return Err(Error::NoClientAddress);
                }
                return Ok(ip.to_owned());
            },
            None => {},
        }
    }
    match peer {
        Some(ip) => Ok(ip.to_owned()),
        None => Err(Error::NoClientAddress),
    }
}

} // verus!
