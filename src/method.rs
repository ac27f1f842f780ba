use vstd::prelude::*;

verus! {

/// The request methods this server routes. Any other verb is unsupported.
#[derive(PartialEq, Eq, Structural, Clone, Copy, Debug, Hash)]
pub enum HttpMethod {
    GET,
    POST,
}

/// The ASCII bytes of a method's name.
pub open spec fn method_name(m: HttpMethod) -> Seq<u8> {
    match m {
        HttpMethod::GET => seq![0x47u8, 0x45u8, 0x54u8],
        HttpMethod::POST => seq![0x50u8, 0x4fu8, 0x53u8, 0x54u8],
    }
}

/// The method a request-line token names: an exact, case-sensitive match.
pub open spec fn method_of_token(t: Seq<u8>) -> Option<HttpMethod> {
    if t == method_name(HttpMethod::GET) {
        Some(HttpMethod::GET)
    } else if t == method_name(HttpMethod::POST) {
        Some(HttpMethod::POST)
    } else {
        None
    }
}

impl HttpMethod {
    /// Recognizes the method named by `line[start..end]`.
    pub fn from_token(line: &[u8], start: usize, end: usize) -> (r: Option<HttpMethod>)
        requires
            start <= end <= line@.len(),
        ensures
            r == method_of_token(line@.subrange(start as int, end as int)),
    {
        let t = Ghost(line@.subrange(start as int, end as int));
        if end - start == 3 && line[start] == 0x47u8 && line[start + 1] == 0x45u8 && line[start
            + 2] == 0x54u8 {
            assert(t@ =~= method_name(HttpMethod::GET));
            Some(HttpMethod::GET)
        } else if end - start == 4 && line[start] == 0x50u8 && line[start + 1] == 0x4fu8
            && line[start + 2] == 0x53u8 && line[start + 3] == 0x54u8 {
            assert(t@ =~= method_name(HttpMethod::POST));
            Some(HttpMethod::POST)
        } else {
            assert(t@ != method_name(HttpMethod::GET) && t@ != method_name(HttpMethod::POST)) by {
                assert(forall|k: int| 0 <= k < t@.len() ==> t@[k] == line@[start + k]);
                if t@ == method_name(HttpMethod::GET) {
                    assert(t@[0] == 0x47u8 && t@[1] == 0x45u8 && t@[2] == 0x54u8);
                }
                if t@ == method_name(HttpMethod::POST) {
                    assert(t@[0] == 0x50u8 && t@[1] == 0x4fu8 && t@[2] == 0x53u8 && t@[3] == 0x54u8);
                }
            }
            None
        }
    }
}

} // verus!
