//! The client identity: read from its cookie, or newly allocated.
use vstd::prelude::*;
use vstd::string::*;
use crate::cookie::{
    cookie_map, lemma_render_pairs, load_cookie, pair_ok, pair_text, pairs_map, pairs_ok, render,
    stringify_cookie,
};

verus! {

/// Name of the cookie that carries the client identifier.
pub const CID_COOKIE: &'static str = "ab_cid";

/// How long, in seconds, the client keeps the identity cookie: one year.
pub const CID_MAX_AGE: &'static str = "31536000";

pub open spec fn cid_cookie() -> Seq<char> {
    seq!['a', 'b', '_', 'c', 'i', 'd']
}

/// The `Set-Cookie` value that hands the identifier `id` to the client.
pub open spec fn setcookie_text(id: Seq<char>) -> Seq<char> {
    cid_cookie() + seq!['='] + id + "; Max-Age=31536000; Path=/; Secure; HttpOnly"@
}

pub open spec fn is_lower_hex(c: char) -> bool {
    ('0' <= c && c <= '9') || ('a' <= c && c <= 'f')
}

/// The text form of a version-4 UUID: 36 characters, `-` at 8, 13, 18 and
/// 23, lowercase hex digits elsewhere, version `4` at 14, and the variant
/// (one of `8`, `9`, `a`, `b`) at 19.
pub open spec fn is_uuid_v4(s: Seq<char>) -> bool {
    &&& s.len() == 36
    &&& forall|i: int|
        0 <= i < 36 ==> if i == 8 || i == 13 || i == 18 || i == 23 {
            s[i] == '-'
        } else {
            is_lower_hex(#[trigger] s[i])
        }
    &&& s[14] == '4'
    &&& (s[19] == '8' || s[19] == '9' || s[19] == 'a' || s[19] == 'b')
}

/// Relies on uuid's `Uuid::new_v4`, which sets the version and variant bits
/// of a random value, and on its `Display`, the lowercase hyphenated form.
#[verifier::external_body]
fn random_uuid() -> (r: String)
    ensures
        is_uuid_v4(r@),
{
    uuid::Uuid::new_v4().to_string()
}

/// The identifier of a client, and whether it was allocated for this request.
pub struct ClientID {
    pub id: String,
    pub is_new: bool,
}

impl ClientID {
    /// A freshly allocated random identifier.
    pub fn new() -> (r: ClientID)
        ensures
            r.is_new,
            is_uuid_v4(r.id@),
    {
        ClientID { id: random_uuid(), is_new: true }
    }

    /// An identifier the client already had.
    pub fn from_id(id: String) -> (r: ClientID)
        ensures
            !r.is_new,
            r.id@ == id@,
    {
        ClientID { id, is_new: false }
    }

    /// The `Set-Cookie` value that makes the client keep this identifier.
    pub fn as_setcookie(&self) -> (r: String)
        ensures
            r@ == setcookie_text(self.id@),
    {
        let mut out = String::from_str(CID_COOKIE);
        out.append("=");
        out.append(self.id.as_str());
        out.append("; Max-Age=");
        out.append(CID_MAX_AGE);
        out.append("; Path=/; Secure; HttpOnly");
        proof {
            reveal_strlit("ab_cid");
            reveal_strlit("=");
            reveal_strlit("; Max-Age=");
            reveal_strlit("31536000");
            reveal_strlit("; Path=/; Secure; HttpOnly");
            reveal_strlit("; Max-Age=31536000; Path=/; Secure; HttpOnly");
            assert(out@ =~= setcookie_text(self.id@));
        }
        out
    }
}

impl ClientID {
    /// The response headers that a newly allocated identity calls for: the
    /// cookie that keeps it, and a directive that no shared cache stores the
    /// response. None for a known client.
    pub fn response_headers(&self) -> (r: Vec<(String, String)>)
        ensures
            !self.is_new ==> r@.len() == 0,
            self.is_new ==> r@.len() == 2 && r@[0].0@ == "set-cookie"@ && r@[0].1@ == setcookie_text(
                self.id@,
            ) && r@[1].0@ == "cache-control"@ && r@[1].1@ == "no-store"@,
    {
        let mut hs: Vec<(String, String)> = Vec::new();
        if self.is_new {
            hs.push((String::from_str("set-cookie"), self.as_setcookie()));
            hs.push((String::from_str("cache-control"), String::from_str("no-store")));
        }
        hs
    }
}

/// What the identity cookie decides for one request: the client's identity,
/// and the cookie header to forward in place of the inbound one (`None`:
/// forward it as it came).
pub open spec fn resolved(cookie: Option<Seq<char>>, cid: ClientID, forward: Option<String>) -> bool {
    match cookie {
        Some(h) if cookie_map(h).contains_key(cid_cookie()) => {
            &&& !cid.is_new
            &&& cid.id@ == cookie_map(h)[cid_cookie()]
            &&& forward is Some
            &&& exists|rest: Seq<(Seq<char>, Seq<char>)>|
                pairs_ok(rest) && pairs_map(rest) == cookie_map(h).remove(cid_cookie())
                    && forward.unwrap()@ == render(rest)
        },
        _ => cid.is_new && is_uuid_v4(cid.id@) && forward is None,
    }
}

/// Finds the client's identifier in the inbound cookie header, or allocates a
/// new one. Where the identity cookie is there, it is taken out, and the
/// header to forward holds the other cookies only.
pub fn resolve_identity(cookie: Option<&str>) -> (r: (ClientID, Option<String>))
    ensures
        resolved(
            match cookie {
                Some(h) => Some(h@),
                None => None,
            },
            r.0,
            r.1,
        ),
{
    match cookie {
        Some(h) => {
            let mut jar = load_cookie(h);
            proof {
                reveal_strlit("ab_cid");
            }
            assert(CID_COOKIE@ == cid_cookie());
            match jar.remove(CID_COOKIE) {
                Some(id) => {
                    let forward = stringify_cookie(&jar);
                    (ClientID::from_id(id), Some(forward))
                },
                None => (ClientID::new(), None),
            }
        },
        None => (ClientID::new(), None),
    }
}

/// A fresh identifier, sent back as the cookie `ab_cid=<id>`, reads back as
/// the same identifier: it holds no `;`, `=` or white space.
pub proof fn lemma_fresh_id_reads_back(id: Seq<char>)
    requires
        is_uuid_v4(id),
    ensures
        cookie_map(cid_cookie() + seq!['='] + id).contains_key(cid_cookie()),
        cookie_map(cid_cookie() + seq!['='] + id)[cid_cookie()] == id,
{
    let p = (cid_cookie(), id);
    assert(!id.contains(';')) by {
        if id.contains(';') {
            let i = choose|i: int| 0 <= i < id.len() && id[i] == ';';
            assert(is_lower_hex(id[i]) || id[i] == '-');
        }
    }
    assert(!cid_cookie().contains('=')) by {
        if cid_cookie().contains('=') {
            let i = choose|i: int| 0 <= i < cid_cookie().len() && cid_cookie()[i] == '=';
        }
    }
    assert(!cid_cookie().contains(';')) by {
        if cid_cookie().contains(';') {
            let i = choose|i: int| 0 <= i < cid_cookie().len() && cid_cookie()[i] == ';';
        }
    }
    let ps = seq![p];
    assert(pairs_ok(ps)) by {
        assert forall|j: int| 0 <= j < ps.len() implies pair_ok(#[trigger] ps[j]) by {
            assert(ps[j] == p);
        }
    }
    lemma_render_pairs(ps);
    assert(render(ps) == pair_text(p));
    assert(ps.drop_last() =~= Seq::<(Seq<char>, Seq<char>)>::empty());
    assert(pairs_map(ps.drop_last()) == Map::<Seq<char>, Seq<char>>::empty());
    assert(ps.last() == p);
    assert(pairs_map(ps) =~= Map::<Seq<char>, Seq<char>>::empty().insert(cid_cookie(), id));
}

} // verus!
