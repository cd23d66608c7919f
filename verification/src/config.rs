//! Service kinds, their names, and the pure parts of reading the gateway's
//! configuration (the environment itself is read by the binary).
use vstd::prelude::*;
use vstd::string::*;
use crate::text::{
    ascii_uppercase, chars_of, lemma_split_nonempty, lemma_split_prefix, split_char, str_eq,
    trim_bounds, trim_ws, upper_seq,
};

verus! {

/// The services this gateway can run.
#[derive(Clone, Copy, Debug, PartialEq, Eq, Hash, Structural)]
pub enum ServiceKind {
    S3,
}

/// The short name of a service, as it appears in SigV4 credential scopes and
/// in the `AWRUST_SERVICES` list.
pub open spec fn service_name(k: ServiceKind) -> Seq<char> {
    match k {
        ServiceKind::S3 => "s3"@,
    }
}

/// The service whose short name is exactly `n`, if any.
pub open spec fn kind_named(n: Seq<char>) -> Option<ServiceKind> {
    if n == service_name(ServiceKind::S3) {
        Some(ServiceKind::S3)
    } else {
        None
    }
}

impl ServiceKind {
    /// Name of the executable that serves this kind, looked up on `PATH`.
    pub fn binary_name(self) -> (r: String)
        ensures
            r@ == "awrust-"@ + service_name(self) + "-server"@,
    {
        let mut s = String::from_str("awrust-");
        s.append(self.as_str());
        s.append("-server");
        s
    }

    /// Environment variable through which the child learns its listen address.
    pub fn listen_env_var(self) -> (r: String)
        ensures
            r@ == "AWRUST_"@ + upper_seq(service_name(self)) + "_LISTEN_ADDR"@,
    {
        let upper = ascii_uppercase(self.as_str());
        let mut s = String::from_str("AWRUST_");
        s.append(upper.as_str());
        s.append("_LISTEN_ADDR");
        s
    }

    /// Environment variable that overrides the child's base domain.
    pub fn base_domain_env_var(self) -> (r: String)
        ensures
            r@ == "AWRUST_"@ + upper_seq(service_name(self)) + "_BASE_DOMAIN"@,
    {
        let upper = ascii_uppercase(self.as_str());
        let mut s = String::from_str("AWRUST_");
        s.append(upper.as_str());
        s.append("_BASE_DOMAIN");
        s
    }

    /// The service named by a SigV4 credential scope's service segment.
    pub fn from_sigv4_name(name: &str) -> (r: Option<Self>)
        ensures
            r == kind_named(name@),
    {
        Self::lookup(name)
    }

    /// The service named by an entry of the `AWRUST_SERVICES` list.
    pub fn from_str(s: &str) -> (r: Option<Self>)
        ensures
            r == kind_named(s@),
    {
        Self::lookup(s)
    }

    fn lookup(name: &str) -> (r: Option<Self>)
        ensures
            r == kind_named(name@),
    {
        if str_eq(name, "s3") {
            Some(ServiceKind::S3)
        } else {
            None
        }
    }

    /// The short name of the service.
    pub fn as_str(self) -> (r: &'static str)
        ensures
            r@ == service_name(self),
    {
        match self {
            ServiceKind::S3 => "s3",
        }
    }

    /// The service's display form: its short name.
    pub fn to_string(&self) -> (r: String)
        ensures
            r@ == service_name(*self),
    {
        self.as_str().to_owned()
    }
}

/// Every service name leads back to its service: naming is a bijection
/// between the kinds and their names.
pub proof fn lemma_service_name_roundtrip(k: ServiceKind)
    ensures
        kind_named(service_name(k)) == Some(k),
{
}

// ---------------------------------------------------------------------------
// The `AWRUST_SERVICES` list
// ---------------------------------------------------------------------------

/// The result of reading a list of pieces as service names: every trimmed
/// piece must name a service, and the first piece that does not is reported
/// as it stood in the list.
pub open spec fn services_from_pieces(ps: Seq<Seq<char>>) -> Result<Seq<ServiceKind>, Seq<char>>
    decreases ps.len(),
{
    if ps.len() == 0 {
        Ok(seq![])
    } else {
        match kind_named(trim_ws(ps[0])) {
            None => Err(ps[0]),
            Some(k) => match services_from_pieces(ps.drop_first()) {
                Ok(ks) => Ok(seq![k] + ks),
                Err(e) => Err(e),
            },
        }
    }
}

/// The meaning of an `AWRUST_SERVICES` value: comma-separated service names,
/// each with surrounding whitespace ignored.
pub open spec fn services_spec(s: Seq<char>) -> Result<Seq<ServiceKind>, Seq<char>> {
    services_from_pieces(split_char(s, ','))
}

proof fn lemma_services_append(a: Seq<Seq<char>>, b: Seq<Seq<char>>, ka: Seq<ServiceKind>)
    requires
        services_from_pieces(a) == Ok::<Seq<ServiceKind>, Seq<char>>(ka),
    ensures
        services_from_pieces(a + b) == (match services_from_pieces(b) {
            Ok(kb) => Ok(ka + kb),
            Err(e) => Err::<Seq<ServiceKind>, Seq<char>>(e),
        }),
    decreases a.len(),
{
    if a.len() == 0 {
        assert(a + b =~= b);
        assert(ka =~= Seq::<ServiceKind>::empty());
        match services_from_pieces(b) {
            Ok(kb) => { assert(ka + kb =~= kb); },
            Err(e) => {},
        }
    } else {
        let k = kind_named(trim_ws(a[0]))->Some_0;
        let ka2 = services_from_pieces(a.drop_first())->Ok_0;
        lemma_services_append(a.drop_first(), b, ka2);
        assert((a + b).drop_first() =~= a.drop_first() + b);
        assert((a + b)[0] == a[0]);
        match services_from_pieces(b) {
            Ok(kb) => { assert(seq![k] + (ka2 + kb) =~= ka + kb); },
            Err(e) => {},
        }
    }
}

/// Reads an `AWRUST_SERVICES` value. `Err` carries the first entry, untrimmed,
/// that names no service (the binary stops with "unknown service: ..." on it).
pub fn parse_services(s: &str) -> (r: Result<Vec<ServiceKind>, String>)
    ensures
        match services_spec(s@) {
            Ok(ks) => r matches Ok(v) && v@ == ks,
            Err(e) => r matches Err(m) && m@ == e,
        },
{
    let cs = chars_of(s);
    let n = cs.len();
    let mut out: Vec<ServiceKind> = Vec::new();
    let mut start: usize = 0;
    let mut i: usize = 0;
    let ghost mut done: Seq<Seq<char>> = seq![];
    proof {
        assert(cs@.subrange(0, 0) + cs@.skip(0) =~= cs@);
    }
    while i <= n
        invariant
            n == cs@.len(),
            cs@ == s@,
            start <= i,
            i <= n,
            start <= n,
            split_char(s@, ',') == done + split_char(cs@.subrange(start as int, i as int) + cs@.skip(i as int), ','),
            forall|j: int| start <= j < i && j < n ==> cs@[j] != ',',
            services_from_pieces(done) == Ok::<Seq<ServiceKind>, Seq<char>>(out@),
        decreases n + 1 - i,
    {
        if i == n || cs[i] == ',' {
            let ghost piece = cs@.subrange(start as int, i as int);
            let ghost t = cs@.skip(i as int);
            proof {
                lemma_split_prefix(piece, t, ',');
                lemma_split_nonempty(t, ',');
            }
            let (lo, hi) = trim_bounds(cs.as_slice(), start, i);
            let k = ServiceKind::from_str(s.substring_char(lo, hi));
            let ghost old_done = done;
            let ghost old_out = out@;
            match k {
                None => {
                    proof {
                        if i == n {
                            assert(t =~= Seq::<char>::empty());
                            assert(split_char(s@, ',') =~= done + seq![piece]);
                        } else {
                            assert(t.drop_first() =~= cs@.skip(i + 1));
                            assert(t[0] == ',');
                            assert(split_char(t, ',') =~= seq![Seq::<char>::empty()] + split_char(cs@.skip(i + 1), ','));
                            assert(split_char(piece + t, ',') =~= seq![piece] + split_char(cs@.skip(i + 1), ','));
                            assert(split_char(s@, ',') =~= done + (seq![piece] + split_char(cs@.skip(i + 1), ',')));
                        }
                        let rest = split_char(s@, ',').subrange(done.len() as int, split_char(s@, ',').len() as int);
                        assert(split_char(s@, ',') =~= done + rest);
                        assert(rest[0] == piece);
                        lemma_services_append(done, rest, out@);
                    }
                    let name = s.substring_char(start, i);
                    return Err(name.to_owned());
                },
                Some(kind) => {
                    out.push(kind);
                    proof {
                        done = done.push(piece);
                        lemma_services_append(old_done, seq![piece], old_out);
                        assert(seq![piece][0] == piece);
                        assert(seq![piece].drop_first() =~= Seq::<Seq<char>>::empty());
                        assert(services_from_pieces(seq![piece].drop_first()) == Ok::<Seq<ServiceKind>, Seq<char>>(seq![]));
                        assert(seq![kind] + Seq::<ServiceKind>::empty() =~= seq![kind]);
                        assert(old_out + seq![kind] =~= out@);
                        assert(services_from_pieces(seq![piece]) == Ok::<Seq<ServiceKind>, Seq<char>>(seq![kind]));
                        assert(old_done + seq![piece] =~= done);
                        if i == n {
                            assert(t =~= Seq::<char>::empty());
                            assert(split_char(s@, ',') =~= done);
                        }
                    }
                    if i == n {
                        return Ok(out);
                    }
                    proof {
                        assert(t.drop_first() =~= cs@.skip(i + 1));
                        assert(t[0] == ',');
                        assert(split_char(t, ',') =~= seq![Seq::<char>::empty()] + split_char(cs@.skip(i + 1), ','));
                        assert(split_char(piece + t, ',') =~= seq![piece] + split_char(cs@.skip(i + 1), ','));
                        assert(cs@.subrange(i + 1, i + 1) + cs@.skip(i + 1) =~= cs@.skip(i + 1));
                        assert(split_char(s@, ',') =~= done + split_char(cs@.subrange(i + 1, i + 1) + cs@.skip(i + 1), ','));
                    }
                },
            }
            start = i + 1;
        } else {
            proof {
                assert(cs@.subrange(start as int, i as int) + cs@.skip(i as int) =~= cs@.subrange(start as int, i + 1) + cs@.skip(i + 1));
            }
        }
        i = i + 1;
    }
    Ok(out)
}

/// Whether an `AWRUST_DNS` value switches the DNS responder on: only the
/// exact values `true` and `1` do, and an unset variable does not.
pub fn dns_flag_enabled(value: Option<&str>) -> (r: bool)
    ensures
        r == (value matches Some(v) && (v@ == "true"@ || v@ == "1"@)),
{
    match value {
        Some(v) => str_eq(v, "true") || str_eq(v, "1"),
        None => false,
    }
}

} // verus!
