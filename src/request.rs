//! The query parameters that an application service adds to its requests to the homeserver.
use vstd::prelude::*;
use vstd::string::StringExecFns;

use crate::text::same_text;

verus! {

/// `key=value`.
pub open spec fn param_text(p: (Seq<char>, Seq<char>)) -> Seq<char> {
    p.0 + "="@ + p.1
}

/// The parameters as a query string: `key=value` pairs joined by `&`, in their order.
pub open spec fn joined(params: Seq<(Seq<char>, Seq<char>)>) -> Seq<char>
    decreases params.len(),
{
    if params.len() == 0 {
        Seq::empty()
    } else if params.len() == 1 {
        param_text(params[0])
    } else {
        joined(params.drop_last()) + "&"@ + param_text(params.last())
    }
}

/// The parameters after setting `key` to `value`: an existing parameter keeps its place and
/// takes the new value, a new one goes last.
pub open spec fn with_param(
    params: Seq<(Seq<char>, Seq<char>)>,
    key: Seq<char>,
    value: Seq<char>,
) -> Seq<(Seq<char>, Seq<char>)> {
    if exists|i: int| 0 <= i < params.len() && (#[trigger] params[i]).0 == key {
        params.update(
            choose|i: int| 0 <= i < params.len() && (#[trigger] params[i]).0 == key,
            (key, value),
        )
    } else {
        params.push((key, value))
    }
}

/// No two parameters share a key.
pub open spec fn keys_distinct(params: Seq<(Seq<char>, Seq<char>)>) -> bool {
    forall|i: int, j: int|
        0 <= i < params.len() && 0 <= j < params.len() && i != j ==> (#[trigger] params[i]).0 != (
        #[trigger] params[j]).0
}

/// The path and query of a request: `path?query&params`, or `path?params` where the request has
/// no query yet.
pub open spec fn path_and_query_text(
    path: Seq<char>,
    query: Option<Seq<char>>,
    params: Seq<char>,
) -> Seq<char> {
    match query {
        Some(q) => path + "?"@ + q + "&"@ + params,
        None => path + "?"@ + params,
    }
}

/// Query parameters, each key at most once, in the order in which their keys were first set.
pub struct QueryParams {
    params: Vec<(String, String)>,
}

impl View for QueryParams {
    type V = Seq<(Seq<char>, Seq<char>)>;

    closed spec fn view(&self) -> Seq<(Seq<char>, Seq<char>)> {
        self.params@.map_values(|p: (String, String)| (p.0@, p.1@))
    }
}

impl QueryParams {
    /// The keys are distinct.
    pub open spec fn wf(&self) -> bool {
        keys_distinct(self@)
    }

    /// No parameters.
    pub fn new() -> (r: Self)
        ensures
            r.wf(),
            r@ == Seq::<(Seq<char>, Seq<char>)>::empty(),
    {
        QueryParams { params: Vec::new() }
    }

    /// Sets the parameter `key` to `value`.
    pub fn set(&mut self, key: String, value: String)
        requires
            old(self).wf(),
        ensures
            final(self).wf(),
            final(self)@ == with_param(old(self)@, key@, value@),
    {
        let ghost before = self@;
        let mut i: usize = 0;
        while i < self.params.len()
            invariant
                self@ == before,
                before == old(self)@,
                keys_distinct(before),
                0 <= i <= before.len(),
                forall|k: int| 0 <= k < i ==> (#[trigger] before[k]).0 != key@,
            decreases before.len() - i,
        {
            assert(before[i as int] == (self.params@[i as int].0@, self.params@[i as int].1@));
            if same_text(self.params[i].0.as_str(), key.as_str()) {
                proof {
                    let c = choose|c: int| 0 <= c < before.len() && (#[trigger] before[c]).0 == key@;
                    if c != i {
                        assert(before[c].0 != before[i as int].0);
                    }
                }
                let ghost entry = (key@, value@);
                self.params.set(i, (key, value));
                proof {
                    assert(self@ =~= before.update(i as int, entry));
                    assert(exists|c: int| 0 <= c < before.len() && (#[trigger] before[c]).0 == key@);
                    assert(with_param(before, key@, value@) == before.update(i as int, entry));
                    assert forall|a: int, b: int|
                        0 <= a < self@.len() && 0 <= b < self@.len() && a != b implies (
                        #[trigger] self@[a]).0 != (#[trigger] self@[b]).0 by {
                        assert(before[a].0 != before[b].0);
                    }
                }
                return;
            }
            i = i + 1;
        }
        let ghost entry = (key@, value@);
        self.params.push((key, value));
        proof {
            assert(self@ =~= before.push(entry));
            assert forall|a: int, b: int|
                0 <= a < self@.len() && 0 <= b < self@.len() && a != b implies (
                #[trigger] self@[a]).0 != (#[trigger] self@[b]).0 by {
                if a < before.len() && b < before.len() {
                    assert(before[a].0 != before[b].0);
                }
            }
        }
    }

    /// The parameters as a query string, `key=value` pairs joined by `&`.
    pub fn to_query(&self) -> (r: String)
        ensures
            r@ == joined(self@),
    {
        let mut r = String::new();
        let mut i: usize = 0;
        while i < self.params.len()
            invariant
                0 <= i <= self@.len(),
                r@ == joined(self@.subrange(0, i as int)),
            decreases self@.len() - i,
        {
            let ghost sub = self@.subrange(0, i + 1);
            if i > 0 {
                r.append("&");
            }
            r.append(self.params[i].0.as_str());
            r.append("=");
            r.append(self.params[i].1.as_str());
            proof {
                assert(sub.drop_last() =~= self@.subrange(0, i as int));
                assert(sub.last() == (self.params@[i as int].0@, self.params@[i as int].1@));
                if i == 0 {
                    assert(joined(self@.subrange(0, 0)) =~= Seq::<char>::empty());
                }
                assert(r@ =~= joined(sub));
            }
            i = i + 1;
        }
        assert(self@.subrange(0, i as int) =~= self@);
        r
    }
}

/// The path and query of a request with `params` added: `path?query&params`, or `path?params`
/// where the request has no query yet.
pub fn path_and_query(path: &str, query: Option<&str>, params: &str) -> (r: String)
    ensures
        r@ == path_and_query_text(
            path@,
            match query {
                Some(q) => Some(q@),
                None => None,
            },
            params@,
        ),
{
    let mut r = String::from_str(path);
    r.append("?");
    if let Some(q) = query {
        r.append(q);
        r.append("&");
    }
    r.append(params);
    proof {
        assert(r@ =~= path_and_query_text(
            path@,
            match query {
                Some(q) => Some(q@),
                None => None,
            },
            params@,
        ));
    }
    r
}

} // verus!
