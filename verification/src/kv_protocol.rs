//! The text protocol of the networked key-value server: one request,
//! `GET key` or `SET key value`, answered with the value (`NULL` when the
//! key is missing), `OK`, or `ERROR`.
use vstd::prelude::*;
use crate::strmap::StrMap;
use crate::text::{same_chars, split_n, splitn, text_of_bytes, trim, trimmed, utf8_lossy};

verus! {

/// The stored strings as character sequences.
pub open spec fn texts_map(m: Map<Seq<char>, String>) -> Map<Seq<char>, Seq<char>> {
    m.map_values(|s: String| s@)
}

/// The state after a request and the response to it.
pub open spec fn respond(m: Map<Seq<char>, Seq<char>>, request: Seq<char>) -> (Map<Seq<char>, Seq<char>>, Seq<char>) {
    let parts = request_words(request);
    if parts[0] == "GET"@ && parts.len() == 2 {
        (m, if m.contains_key(parts[1]) {
            m[parts[1]]
        } else {
            "NULL"@
        })
    } else if parts[0] == "SET"@ && parts.len() == 3 {
        (m.insert(parts[1], parts[2]), "OK"@)
    } else {
        (m, "ERROR"@)
    }
}

/// The words of a request: the trimmed text split on the first two spaces.
pub open spec fn request_words(request: Seq<char>) -> Seq<Seq<char>> {
    splitn(trimmed(request), 3, ' ')
}

/// After `SET key value`, `GET key` answers the value.
pub proof fn lemma_set_then_get(m: Map<Seq<char>, Seq<char>>, set_req: Seq<char>, get_req: Seq<char>)
    requires
        request_words(set_req)[0] == "SET"@,
        request_words(set_req).len() == 3,
        request_words(get_req)[0] == "GET"@,
        request_words(get_req).len() == 2,
        request_words(get_req)[1] == request_words(set_req)[1],
    ensures
        respond(m, set_req).1 == "OK"@,
        respond(respond(m, set_req).0, get_req).1 == request_words(set_req)[2],
{
    reveal_strlit("SET");
    reveal_strlit("GET");
    assert("GET"@ != "SET"@) by {
        assert("GET"@[0] != "SET"@[0]);
    }
}

/// Answers one request (its bytes, decoded as UTF-8 with lossy
/// replacement) against the shared state.
pub fn handle_request(state: &mut StrMap<String>, request: &[u8]) -> (response: String)
    requires
        old(state).wf(),
    ensures
        final(state).wf(),
        (texts_map(final(state)@), response@) == respond(texts_map(old(state)@), text_of_bytes(request@)),
{
    let cmd = utf8_lossy(request);
    let t = trim(cmd.as_str());
    let parts = split_n(t.as_str(), 3, ' ');
    let ghost p = parts@.map_values(|s: String| s@);
    proof {
        assert(p.len() >= 1);
    }
    if same_chars(parts[0].as_str(), "GET") && parts.len() == 2 {
        match state.get(parts[1].as_str()) {
            Some(v) => v.clone(),
            None => String::from_str("NULL"),
        }
    } else if same_chars(parts[0].as_str(), "SET") && parts.len() == 3 {
        state.insert(parts[1].clone(), parts[2].clone());
        proof {
            assert(texts_map(state@) =~= texts_map(old(state)@).insert(p[1], p[2]));
        }
        String::from_str("OK")
    } else {
        String::from_str("ERROR")
    }
}

} // verus!
