//! The head of an HTTP request as the gateway sees it, and the choice of the
//! service that handles it.
use vstd::prelude::*;
use vstd::string::*;
use crate::config::{kind_named, ServiceKind};
use crate::text::{
    ascii_lowercase, chars_of, lemma_split_nonempty, lower_seq, split_char, split_ranges, str_eq,
};

verus! {

/// One request header. Names compare without regard to ASCII case; `value`
/// is `None` when the header's value is not visible ASCII text.
pub struct Header {
    pub name: String,
    pub value: Option<String>,
}

/// What the gateway reads of a request: the path of its target and its
/// headers, in order.
pub struct RequestHead {
    pub path: String,
    pub headers: Vec<Header>,
}

/// The text of the first header named `name` (given in lower case): `None`
/// when there is no such header or its value is not text.
pub open spec fn header_text(hs: Seq<Header>, name: Seq<char>) -> Option<Seq<char>>
    decreases hs.len(),
{
    if hs.len() == 0 {
        None
    } else if lower_seq(hs[0].name@) == name {
        match hs[0].value {
            Some(v) => Some(v@),
            None => None,
        }
    } else {
        header_text(hs.drop_first(), name)
    }
}

/// Looks up the text of the first header named `name` (given in lower case).
pub fn header_value<'a>(head: &'a RequestHead, name: &str) -> (r: Option<&'a str>)
    ensures
        match header_text(head.headers@, name@) {
            Some(t) => r matches Some(s) && s@ == t,
            None => r is None,
        },
{
    let n = head.headers.len();
    let mut i: usize = 0;
    assert(head.headers@.skip(0) =~= head.headers@);
    while i < n
        invariant
            n == head.headers@.len(),
            i <= n,
            header_text(head.headers@, name@) == header_text(head.headers@.skip(i as int), name@),
        decreases n - i,
    {
        let h = &head.headers[i];
        let lowered = ascii_lowercase(h.name.as_str());
        proof {
            assert(head.headers@.skip(i as int)[0] == head.headers@[i as int]);
            assert(head.headers@.skip(i as int).drop_first() =~= head.headers@.skip(i + 1));
        }
        if str_eq(lowered.as_str(), name) {
            return match &h.value {
                Some(v) => Some(v.as_str()),
                None => None,
            };
        }
        i = i + 1;
    }
    None
}

// ---------------------------------------------------------------------------
// Splitting by a pattern
// ---------------------------------------------------------------------------

/// Whether `pat` occurs in `s` at position `i`.
pub open spec fn occurs_at(s: Seq<char>, pat: Seq<char>, i: int) -> bool {
    0 <= i && i + pat.len() <= s.len() && s.subrange(i, i + pat.len()) == pat
}

/// The pieces of `s` between the leftmost non-overlapping occurrences of the
/// non-empty `pat` (as `str::split` with a `&str` pattern yields them).
pub open spec fn split_str(s: Seq<char>, pat: Seq<char>) -> Seq<Seq<char>>
    recommends
        pat.len() > 0,
    decreases s.len(),
{
    if s.len() == 0 || pat.len() == 0 {
        seq![s]
    } else if occurs_at(s, pat, 0) {
        seq![Seq::<char>::empty()] + split_str(s.skip(pat.len() as int), pat)
    } else {
        let rest = split_str(s.drop_first(), pat);
        rest.update(0, seq![s[0]] + rest[0])
    }
}

proof fn lemma_split_str_nonempty(s: Seq<char>, pat: Seq<char>)
    ensures
        split_str(s, pat).len() >= 1,
    decreases s.len(),
{
    if s.len() > 0 && pat.len() > 0 {
        if occurs_at(s, pat, 0) {
            lemma_split_str_nonempty(s.skip(pat.len() as int), pat);
        } else {
            lemma_split_str_nonempty(s.drop_first(), pat);
        }
    }
}

/// Characters before which no occurrence starts extend the first piece.
proof fn lemma_split_str_prefix(cur: Seq<char>, t: Seq<char>, pat: Seq<char>)
    requires
        pat.len() > 0,
        forall|j: int| 0 <= j < cur.len() ==> !occurs_at(cur + t, pat, j),
    ensures
        split_str(cur + t, pat) == split_str(t, pat).update(0, cur + split_str(t, pat)[0]),
    decreases cur.len(),
{
    lemma_split_str_nonempty(t, pat);
    if cur.len() == 0 {
        assert(cur + t =~= t);
        assert(cur + split_str(t, pat)[0] =~= split_str(t, pat)[0]);
        assert(split_str(t, pat).update(0, split_str(t, pat)[0]) =~= split_str(t, pat));
    } else {
        let rest = cur.drop_first();
        assert((cur + t).drop_first() =~= rest + t);
        assert forall|j: int| 0 <= j < rest.len() implies !occurs_at(rest + t, pat, j) by {
            if occurs_at(rest + t, pat, j) {
                assert((cur + t).subrange(j + 1, j + 1 + pat.len()) =~= (rest + t).subrange(j, j + pat.len()));
                assert(occurs_at(cur + t, pat, j + 1));
            }
        }
        lemma_split_str_prefix(rest, t, pat);
        lemma_split_str_nonempty(rest + t, pat);
        assert(!occurs_at(cur + t, pat, 0));
        assert(seq![cur[0]] + (rest + split_str(t, pat)[0]) =~= cur + split_str(t, pat)[0]);
        assert(split_str(cur + t, pat) =~= split_str(t, pat).update(0, cur + split_str(t, pat)[0]));
    }
}

fn occurs_at_exec(cs: &[char], pat: &[char], i: usize) -> (r: bool)
    requires
        i <= cs@.len(),
    ensures
        r == occurs_at(cs@, pat@, i as int),
{
    if pat.len() > cs.len() - i {
        return false;
    }
    let mut j: usize = 0;
    while j < pat.len()
        invariant
            i + pat@.len() <= cs@.len(),
            cs@.len() <= usize::MAX,
            j <= pat@.len(),
            forall|k: int| 0 <= k < j ==> cs@[i + k] == pat@[k],
        decreases pat@.len() - j,
    {
        if cs[i + j] != pat[j] {
            assert(cs@.subrange(i as int, i + pat@.len())[j as int] != pat@[j as int]);
            return false;
        }
        j = j + 1;
    }
    assert(cs@.subrange(i as int, i + pat@.len()) =~= pat@);
    true
}

/// The bounds of the pieces of `cs` between occurrences of the non-empty `pat`.
fn split_str_ranges(cs: &[char], pat: &[char]) -> (r: Vec<(usize, usize)>)
    requires
        pat@.len() > 0,
    ensures
        r@.len() == split_str(cs@, pat@).len(),
        forall|i: int|
            0 <= i < r@.len() ==> #[trigger] r@[i].0 <= r@[i].1 <= cs@.len()
                && cs@.subrange(r@[i].0 as int, r@[i].1 as int) == split_str(cs@, pat@)[i],
{
    let n = cs.len();
    let m = pat.len();
    let mut out: Vec<(usize, usize)> = Vec::new();
    let mut start: usize = 0;
    let mut i: usize = 0;
    let ghost mut done: Seq<Seq<char>> = seq![];
    proof {
        assert(cs@.subrange(0, 0) + cs@.skip(0) =~= cs@);
    }
    while i < n
        invariant
            n == cs@.len(),
            m == pat@.len(),
            m > 0,
            start <= i <= n,
            split_str(cs@, pat@) == done + split_str(cs@.subrange(start as int, i as int) + cs@.skip(i as int), pat@),
            forall|j: int| start <= j < i ==> !occurs_at(cs@, pat@, j),
            out@.len() == done.len(),
            forall|j: int|
                0 <= j < out@.len() ==> #[trigger] out@[j].0 <= out@[j].1 <= cs@.len()
                    && cs@.subrange(out@[j].0 as int, out@[j].1 as int) == done[j],
        decreases n - i,
    {
        let ghost cur = cs@.subrange(start as int, i as int);
        let ghost t = cs@.skip(i as int);
        proof {
            assert forall|j: int| 0 <= j < cur.len() implies !occurs_at(cur + t, pat@, j) by {
                assert(cur + t =~= cs@.skip(start as int));
                if occurs_at(cur + t, pat@, j) {
                    assert(cs@.subrange(start + j, start + j + m) =~= (cur + t).subrange(j, j + m));
                    assert(occurs_at(cs@, pat@, start + j));
                }
            }
            lemma_split_str_prefix(cur, t, pat@);
            lemma_split_str_nonempty(t, pat@);
        }
        if occurs_at_exec(cs, pat, i) {
            proof {
                assert(t.subrange(0, m as int) =~= cs@.subrange(i as int, i + m));
                assert(occurs_at(t, pat@, 0));
                assert(t.skip(m as int) =~= cs@.skip(i + m));
                assert(split_str(t, pat@) == seq![Seq::<char>::empty()] + split_str(cs@.skip(i + m), pat@));
                assert(cur + Seq::<char>::empty() =~= cur);
                assert(split_str(cur + t, pat@) =~= seq![cur] + split_str(cs@.skip(i + m), pat@));
            }
            out.push((start, i));
            proof {
                let old_done = done;
                done = done.push(cur);
                assert(old_done + (seq![cur] + split_str(cs@.skip(i + m), pat@)) =~= done + split_str(cs@.skip(i + m), pat@));
                assert(cs@.subrange(i + m, i + m) + cs@.skip(i + m) =~= cs@.skip(i + m));
            }
            i = i + m;
            start = i;
        } else {
            proof {
                assert(cur + t =~= cs@.subrange(start as int, i + 1) + cs@.skip(i + 1));
            }
            i = i + 1;
        }
    }
    proof {
        let cur = cs@.subrange(start as int, n as int);
        let t = cs@.skip(n as int);
        assert(t =~= Seq::<char>::empty());
        assert(cur + t =~= cur);
        assert(split_str(t, pat@) == seq![t]);
        assert forall|j: int| 0 <= j < cur.len() implies !occurs_at(cur + t, pat@, j) by {
            if occurs_at(cur + t, pat@, j) {
                assert(cs@.subrange(start + j, start + j + m) =~= (cur + t).subrange(j, j + m));
                assert(occurs_at(cs@, pat@, start + j));
            }
        }
        lemma_split_str_prefix(cur, t, pat@);
        assert(split_str(cur, pat@) =~= seq![cur]);
    }
    out.push((start, n));
    proof {
        done = done.push(cs@.subrange(start as int, n as int));
    }
    out
}

// ---------------------------------------------------------------------------
// Routing
// ---------------------------------------------------------------------------

/// The service named by a SigV4 `Authorization` header: the fourth
/// `/`-separated segment of the text after `Credential=`.
pub open spec fn auth_kind(hs: Seq<Header>) -> Option<ServiceKind> {
    match header_text(hs, "authorization"@) {
        None => None,
        Some(auth) => {
            let parts = split_str(auth, "Credential="@);
            if parts.len() < 2 {
                None
            } else {
                let segs = split_char(parts[1], '/');
                if segs.len() < 4 {
                    None
                } else {
                    kind_named(segs[3])
                }
            }
        },
    }
}

pub open spec fn starts_with(s: Seq<char>, prefix: Seq<char>) -> bool {
    prefix.len() <= s.len() && s.subrange(0, prefix.len() as int) == prefix
}

/// The service named by an `x-amz-target` header: a target whose service
/// prefix begins with `DynamoDB` names the service `dynamodb`.
pub open spec fn target_kind(hs: Seq<Header>) -> Option<ServiceKind> {
    match header_text(hs, "x-amz-target"@) {
        None => None,
        Some(target) => if starts_with(split_char(target, '.')[0], "DynamoDB"@) {
            kind_named("dynamodb"@)
        } else {
            None
        },
    }
}

/// The service a request goes to: the one its credential scope names, else
/// the one its target names, else S3.
pub open spec fn route_spec(hs: Seq<Header>) -> ServiceKind {
    match auth_kind(hs) {
        Some(k) => k,
        None => match target_kind(hs) {
            Some(k) => k,
            None => ServiceKind::S3,
        },
    }
}

/// Chooses the service that handles a request.
pub fn route(head: &RequestHead) -> (r: ServiceKind)
    ensures
        r == route_spec(head.headers@),
{
    if let Some(kind) = from_auth_header(head) {
        return kind;
    }
    if let Some(kind) = from_amz_target(head) {
        return kind;
    }
    ServiceKind::S3
}

/// The service named by the request's SigV4 credential scope.
pub fn from_auth_header(head: &RequestHead) -> (r: Option<ServiceKind>)
    ensures
        r == auth_kind(head.headers@),
{
    let auth = match header_value(head, "authorization") {
        Some(a) => a,
        None => return None,
    };
    let cs = chars_of(auth);
    let pat = chars_of("Credential=");
    proof {
        reveal_strlit("Credential=");
    }
    let parts = split_str_ranges(cs.as_slice(), pat.as_slice());
    if parts.len() < 2 {
        return None;
    }
    let (a, b) = parts[1];
    let credential = auth.substring_char(a, b);
    let ccs = chars_of(credential);
    let segs = split_ranges(ccs.as_slice(), '/');
    if segs.len() < 4 {
        return None;
    }
    let (x, y) = segs[3];
    let service = credential.substring_char(x, y);
    ServiceKind::from_sigv4_name(service)
}

/// The service named by the request's `x-amz-target` header.
pub fn from_amz_target(head: &RequestHead) -> (r: Option<ServiceKind>)
    ensures
        r == target_kind(head.headers@),
{
    let target = match header_value(head, "x-amz-target") {
        Some(t) => t,
        None => return None,
    };
    let cs = chars_of(target);
    let pieces = split_ranges(cs.as_slice(), '.');
    proof {
        lemma_split_nonempty(cs@, '.');
    }
    let (a, b) = pieces[0];
    let prefix = chars_of("DynamoDB");
    proof {
        reveal_strlit("DynamoDB");
    }
    let piece_len = b - a;
    let mut is_dynamo = prefix.len() <= piece_len;
    let mut j: usize = 0;
    while is_dynamo && j < prefix.len()
        invariant
            a <= b <= cs@.len(),
            piece_len == b - a,
            prefix@ == "DynamoDB"@,
            j <= prefix@.len(),
            is_dynamo ==> prefix@.len() <= piece_len,
            is_dynamo ==> forall|k: int| 0 <= k < j ==> cs@[a + k] == prefix@[k],
            !is_dynamo ==> !starts_with(cs@.subrange(a as int, b as int), prefix@),
        decreases prefix@.len() - j,
    {
        if cs[a + j] != prefix[j] {
            proof {
                assert(cs@.subrange(a as int, b as int).subrange(0, prefix@.len() as int)[j as int] != prefix@[j as int]);
            }
            is_dynamo = false;
        }
        j = j + 1;
    }
    if is_dynamo {
        proof {
            assert(cs@.subrange(a as int, b as int).subrange(0, prefix@.len() as int) =~= prefix@);
        }
        ServiceKind::from_sigv4_name("dynamodb")
    } else {
        None
    }
}

/// Every request is routed to S3: it is the only service there is, and the
/// default when nothing in the request names a service.
pub proof fn lemma_route_defaults_to_s3(hs: Seq<Header>)
    ensures
        route_spec(hs) == ServiceKind::S3,
{
}

/// A service named by the credential scope wins over the target header.
pub proof fn lemma_auth_takes_precedence(hs: Seq<Header>, k: ServiceKind)
    requires
        auth_kind(hs) == Some(k),
    ensures
        route_spec(hs) == k,
{
}

} // verus!
