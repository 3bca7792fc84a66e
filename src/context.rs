//! The per-request envelope that middleware and handlers work on.
use vstd::prelude::*;

use crate::request::Request;
use crate::response::Response;
use crate::table::{lookup, with_entry, Table};
use crate::text::{trim, trim_str};
use crate::utils::HttpStatusCode;

verus! {

/// One request, the response being built for it, the dynamic path
/// parameters, and the query parameters.
#[derive(Debug)]
pub struct Context {
    pub request: Request,
    pub response: Response,
    pub params: Table<String>,
    pub query_params: Table<String>,
}

/// The pairs of a decoded form as plain values.
pub open spec fn pair_texts(v: Seq<(String, String)>) -> Seq<(Seq<char>, Seq<char>)> {
    v.map_values(|p: (String, String)| (p.0@, p.1@))
}

/// The name/value pairs, in order, that `application/x-www-form-urlencoded`
/// text decodes to; none where it does not decode.
pub uninterp spec fn form_pairs_of(s: Seq<char>) -> Option<Seq<(Seq<char>, Seq<char>)>>;

/// Relies on `serde_urlencoded::from_str` decoding into a list of string pairs
/// in the order in which they appear.
#[verifier::external_body]
fn decode_form(s: &str) -> (r: Option<Vec<(String, String)>>)
    ensures
        match r {
            Some(v) => form_pairs_of(s@) == Some(pair_texts(v@)),
            None => form_pairs_of(s@) is None,
        },
{
    match serde_urlencoded::from_str::<Vec<(String, String)>>(s) {
        Ok(v) => Some(v),
        Err(_) => None,
    }
}

/// The value of a form field: the last pair named `key`, or empty text where
/// there is none or the form did not decode.
pub open spec fn form_field(pairs: Option<Seq<(Seq<char>, Seq<char>)>>, key: Seq<char>) -> Seq<char> {
    match pairs {
        Some(p) => match lookup(p, key) {
            Some(v) => v,
            None => Seq::empty(),
        },
        None => Seq::empty(),
    }
}

/// Looks a field up in decoded form pairs; a later pair of the same name wins.
pub fn field_in_form(pairs: &Option<Vec<(String, String)>>, key: &str) -> (r: String)
    ensures
        r@ == form_field(
            match pairs {
                Some(v) => Some(pair_texts(v@)),
                None => None,
            },
            key@,
        ),
{
    match pairs {
        Some(v) => {
            let mut t: Table<String> = Table::new();
            let mut i: usize = 0;
            let ghost ps = pair_texts(v@);
            assert(ps.take(0) =~= Seq::<(Seq<char>, Seq<char>)>::empty());
            while i < v.len()
                invariant
                    ps == pair_texts(v@),
                    i <= v@.len(),
                    forall|k: Seq<char>| #[trigger] lookup(t@, k) == lookup(ps.take(i as int), k),
                decreases v@.len() - i,
            {
                let ghost before = t@;
                t.insert(v[i].0.clone(), v[i].1.clone());
                proof {
                    let pre = ps.take(i as int);
                    let post = ps.take(i as int + 1);
                    assert(post =~= pre.push(ps[i as int]));
                    assert forall|k: Seq<char>| #[trigger] lookup(t@, k) == lookup(post, k) by {
                        crate::table::lemma_lookup_with_entry(before, v@[i as int].0@, v@[i as int].1@, k);
                        crate::table::lemma_lookup_push(pre, ps[i as int], k);
                    }
                }
                i = i + 1;
            }
            assert(ps.take(v@.len() as int) =~= ps);
            match t.get(key) {
                Some(x) => x.clone(),
                None => String::new(),
            }
        },
        None => String::new(),
    }
}

impl Context {
    /// A context for `request` with a default response and no parameters.
    pub fn new(request: Request) -> (r: Context)
        ensures
            r.request == request,
            r.response.status_code == HttpStatusCode::OK,
            r.response.headers@ == Seq::<(Seq<char>, Seq<char>)>::empty(),
            r.response.body@ == Seq::<char>::empty(),
            r.response.cookies@.len() == 0,
            r.params@ == Seq::<(Seq<char>, Seq<char>)>::empty(),
            r.query_params@ == Seq::<(Seq<char>, Seq<char>)>::empty(),
    {
        Context {
            request,
            response: Response::default(),
            params: Table::new(),
            query_params: Table::new(),
        }
    }

    /// Sets the response's status and body, and returns a copy of the response.
    pub fn send_string(&mut self, status_code: HttpStatusCode, input: &str) -> (r: Response)
        ensures
            final(self).request == old(self).request,
            final(self).params == old(self).params,
            final(self).query_params == old(self).query_params,
            final(self).response.status_code == status_code,
            final(self).response.body@ == input@,
            final(self).response.headers == old(self).response.headers,
            final(self).response.cookies == old(self).response.cookies,
            r.status_code == status_code,
            r.body@ == input@,
            r.headers@ == old(self).response.headers@,
            r.cookies@ == old(self).response.cookies@,
    {
        self.response.status_code = status_code;
        self.response.body = String::from_str(input);
        self.response.clone()
    }

    /// Sets the `Location` header and the status, and returns a copy of the response.
    pub fn redirect(&mut self, status_code: HttpStatusCode, route: &str) -> (r: Response)
        ensures
            final(self).request == old(self).request,
            final(self).params == old(self).params,
            final(self).query_params == old(self).query_params,
            final(self).response.status_code == status_code,
            final(self).response.body == old(self).response.body,
            final(self).response.headers@ == with_entry(old(self).response.headers@, "Location"@, route@),
            final(self).response.cookies == old(self).response.cookies,
            r.status_code == status_code,
            r.body@ == old(self).response.body@,
            r.headers@ == with_entry(old(self).response.headers@, "Location"@, route@),
            r.cookies@ == old(self).response.cookies@,
    {
        self.response.headers.insert(String::from_str("Location"), String::from_str(route));
        self.response.status_code = status_code;
        self.response.clone()
    }

    /// The value of a form field in the body, or empty text where the request
    /// has no `Content-Type` header, no body, no such field, or a body that
    /// does not decode.
    pub fn form_value(&mut self, key: &str) -> (r: String)
        ensures
            *final(self) == *old(self),
            r@ == match (lookup(old(self).request.headers@, "Content-Type"@), old(self).request.body) {
                (Some(_), Some(b)) => form_field(form_pairs_of(trim(b@)), key@),
                _ => Seq::empty(),
            },
    {
        if !self.request.headers.contains_key("Content-Type") {
            return String::new();
        }
        match &self.request.body {
            Some(b) => {
                let pairs = decode_form(trim_str(b.as_str()));
                field_in_form(&pairs, key)
            },
            None => String::new(),
        }
    }
}

} // verus!
