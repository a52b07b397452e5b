//! The parts of tier 3 that do not talk to the network: where the request
//! goes, how it is authorized, which part of the reply is the summary, and
//! how the summary is presented.
use vstd::prelude::*;

use crate::text::{chars_of, push_str, string_of, trim, trim_chars};

verus! {

/// `s` without the copies of `c` at its end (`str::trim_end_matches(c)`).
pub open spec fn trim_trailing(s: Seq<char>, c: char) -> Seq<char>
    decreases s.len(),
{
    if s.len() > 0 && s.last() == c {
        trim_trailing(s.drop_last(), c)
    } else {
        s
    }
}

/// The chat-completions URL of an OpenAI-compatible endpoint: the endpoint
/// without trailing slashes, then `/chat/completions`.
pub fn chat_completions_url(endpoint: &str) -> (url: String)
    ensures
        url@ == trim_trailing(endpoint@, '/') + "/chat/completions"@,
{
    let v = chars_of(endpoint);
    let mut n = v.len();
    proof {
        assert(v@.take(v@.len() as int) =~= v@);
    }
    while n > 0 && v[n - 1] == '/'
        invariant
            n <= v@.len(),
            trim_trailing(v@, '/') == trim_trailing(v@.take(n as int), '/'),
        decreases n,
    {
        proof {
            assert(v@.take(n as int).drop_last() =~= v@.take(n - 1));
        }
        n = n - 1;
    }
    let mut out: Vec<char> = Vec::new();
    let mut i: usize = 0;
    while i < n
        invariant
            n <= v@.len(),
            i <= n,
            out@ == v@.take(i as int),
        decreases n - i,
    {
        out.push(v[i]);
        proof {
            assert(v@.take(i + 1) =~= v@.take(i as int).push(v@[i as int]));
        }
        i = i + 1;
    }
    push_str(&mut out, "/chat/completions");
    proof {
        assert(v@.take(v@.len() as int) =~= v@);
    }
    string_of(out.as_slice())
}

/// The value of the `Authorization` header: none for an empty key,
/// otherwise the key as a bearer token.
pub fn bearer_authorization(api_key: &str) -> (h: Option<String>)
    ensures
        api_key@.len() == 0 <==> h is None,
        h matches Some(v) ==> v@ == "Bearer "@ + api_key@,
{
    let k = chars_of(api_key);
    if k.len() == 0 {
        None
    } else {
        let mut out: Vec<char> = Vec::new();
        push_str(&mut out, "Bearer ");
        push_str(&mut out, api_key);
        Some(string_of(out.as_slice()))
    }
}

/// The summary in a reply: the content of its first choice; a reply without
/// choices is an error.
pub fn first_choice_content(contents: Vec<String>) -> (r: Result<String, String>)
    ensures
        contents@.len() > 0 <==> r is Ok,
        r matches Ok(c) ==> c@ == contents@[0]@,
        r matches Err(e) ==> e@ == "Empty choices in LiteLLM response"@,
{
    let mut contents = contents;
    if contents.len() > 0 {
        Ok(contents.remove(0))
    } else {
        Err(String::from_str("Empty choices in LiteLLM response"))
    }
}

/// How a summary is printed: a header naming the model, an empty line, the
/// trimmed summary.
pub fn render_ai_summary(model: &str, summary: &str) -> (s: String)
    ensures
        s@ == "=== [log-squeeze: AI Semantic Summary (model: "@ + model@ + ")] ===\n\n"@ + trim(
            summary@,
        ) + "\n"@,
{
    let mut out: Vec<char> = Vec::new();
    push_str(&mut out, "=== [log-squeeze: AI Semantic Summary (model: ");
    push_str(&mut out, model);
    push_str(&mut out, ")] ===\n\n");
    let sv = chars_of(summary);
    let t = trim_chars(sv.as_slice());
    let ghost before = out@;
    let mut i: usize = 0;
    while i < t.len()
        invariant
            i <= t@.len(),
            out@ == before + t@.take(i as int),
        decreases t.len() - i,
    {
        out.push(t[i]);
        proof {
            assert(t@.take(i + 1) =~= t@.take(i as int).push(t@[i as int]));
        }
        i = i + 1;
    }
    push_str(&mut out, "\n");
    proof {
        assert(t@.take(t@.len() as int) =~= t@);
    }
    string_of(out.as_slice())
}

} // verus!
