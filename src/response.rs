use vstd::prelude::*;
use vstd::string::{StrSliceExecFns, StringExecFns};

verus! {

/// The reason phrase sent after a status code.
pub open spec fn status_message(code: u16) -> Seq<char> {
    if code == 200 {
        "OK"@
    } else if code == 201 {
        "Created"@
    } else if code == 400 {
        "Bad Request"@
    } else if code == 404 {
        "Not Found"@
    } else if code == 500 {
        "Internal Server Error"@
    } else {
        "Unknown Status"@
    }
}

/// The decimal digit for `d < 10`.
pub open spec fn digit_char(d: nat) -> char {
    (d + 48) as char
}

/// `n` written in decimal, without leading zeros.
pub open spec fn decimal(n: nat) -> Seq<char>
    decreases n,
{
    if n < 10 {
        seq![digit_char(n)]
    } else {
        decimal(n / 10) + seq![digit_char(n % 10)]
    }
}

fn digit_str(d: usize) -> (r: &'static str)
    requires
        d < 10,
    ensures
        r@ == seq![digit_char(d as nat)],
{
    proof {
        reveal_strlit("0");
        reveal_strlit("1");
        reveal_strlit("2");
        reveal_strlit("3");
        reveal_strlit("4");
        reveal_strlit("5");
        reveal_strlit("6");
        reveal_strlit("7");
        reveal_strlit("8");
        reveal_strlit("9");
    }
    let r = if d == 0 {
        "0"
    } else if d == 1 {
        "1"
    } else if d == 2 {
        "2"
    } else if d == 3 {
        "3"
    } else if d == 4 {
        "4"
    } else if d == 5 {
        "5"
    } else if d == 6 {
        "6"
    } else if d == 7 {
        "7"
    } else if d == 8 {
        "8"
    } else {
        "9"
    };
    assert(r@ =~= seq![digit_char(d as nat)]);
    r
}

/// Appends `n` in decimal to `out`.
fn push_decimal(out: &mut String, n: usize)
    ensures
        final(out)@ == old(out)@ + decimal(n as nat),
    decreases n,
{
    if n >= 10 {
        push_decimal(out, n / 10);
    }
    out.append(digit_str(n % 10));
}

} // verus!

verus! {

/// The characters Unicode calls White_Space, which `str::trim` removes.
pub open spec fn is_space(c: char) -> bool {
    let u = c as u32;
    (9 <= u && u <= 13) || u == 32 || u == 0x85 || u == 0xa0 || u == 0x1680 || (0x2000 <= u
        && u <= 0x200a) || u == 0x2028 || u == 0x2029 || u == 0x202f || u == 0x205f || u
        == 0x3000
}

fn is_space_exec(c: char) -> (r: bool)
    ensures
        r == is_space(c),
{
    let u = c as u32;
    (9 <= u && u <= 13) || u == 32 || u == 0x85 || u == 0xa0 || u == 0x1680 || (0x2000 <= u
        && u <= 0x200a) || u == 0x2028 || u == 0x2029 || u == 0x202f || u == 0x205f || u
        == 0x3000
}

/// Index of the first character of `b` at or after `i` that is not white space.
pub open spec fn first_non_space(b: Seq<char>, i: int) -> int
    decreases b.len() - i,
{
    if 0 <= i < b.len() && is_space(b[i]) {
        first_non_space(b, i + 1)
    } else {
        i
    }
}

/// `j` moved left past white space.
pub open spec fn end_non_space(b: Seq<char>, j: int) -> int
    decreases j,
{
    if 0 < j <= b.len() && is_space(b[j - 1]) {
        end_non_space(b, j - 1)
    } else {
        j
    }
}

/// The body, trimmed of white space, starts with `{` and ends with `}`.
pub open spec fn looks_like_json(b: Seq<char>) -> bool {
    let a = first_non_space(b, 0);
    let z = end_non_space(b, b.len() as int);
    &&& a < z
    &&& b[a] == '{'
    &&& b[z - 1] == '}'
}

/// The `Content-Type` inferred for a body.
pub open spec fn content_type_for(body: Option<Seq<char>>) -> Seq<char> {
    match body {
        Some(b) => if looks_like_json(b) {
            "application/json"@
        } else {
            "text/plain"@
        },
        None => "text/plain"@,
    }
}

fn looks_like_json_exec(body: &str) -> (r: bool)
    ensures
        r == looks_like_json(body@),
{
    let n = body.unicode_len();
    let mut a: usize = 0;
    while a < n && is_space_exec(body.get_char(a))
        invariant
            a <= n == body@.len(),
            first_non_space(body@, a as int) == first_non_space(body@, 0),
        decreases n - a,
    {
        a = a + 1;
    }
    let mut z: usize = n;
    while 0 < z && is_space_exec(body.get_char(z - 1))
        invariant
            z <= n == body@.len(),
            end_non_space(body@, z as int) == end_non_space(body@, n as int),
        decreases z,
    {
        z = z - 1;
    }
    a < z && body.get_char(a) == '{' && body.get_char(z - 1) == '}'
}

/// The value a header list gives `key`: the last entry named `key` wins.
pub open spec fn header_value(hs: Seq<(String, String)>, key: Seq<char>) -> Option<Seq<char>>
    decreases hs.len(),
{
    if hs.len() == 0 {
        None
    } else if hs.last().0@ == key {
        Some(hs.last().1@)
    } else {
        header_value(hs.drop_last(), key)
    }
}

/// No two entries share a name.
pub open spec fn unique_names(hs: Seq<(String, String)>) -> bool {
    forall|i: int, j: int| 0 <= i < j < hs.len() ==> hs[i].0@ != hs[j].0@
}

/// An HTTP response: status code, headers and optional body.
#[derive(Debug)]
pub struct HttpResponse {
    pub status_code: u16,
    /// Header names and values; a name stands at most once.
    pub headers: Vec<(String, String)>,
    pub body: Option<String>,
}

impl HttpResponse {
    pub open spec fn wf(&self) -> bool {
        unique_names(self.headers@)
    }

    /// The value of header `key`.
    pub open spec fn header(&self, key: Seq<char>) -> Option<Seq<char>> {
        header_value(self.headers@, key)
    }
}

} // verus!

verus! {

proof fn lemma_header_value_push(s: Seq<(String, String)>, x: (String, String), k: Seq<char>)
    ensures
        header_value(s.push(x), k) == if x.0@ == k {
            Some(x.1@)
        } else {
            header_value(s, k)
        },
{
    assert(s.push(x).drop_last() =~= s);
}

proof fn lemma_header_value_remove(s: Seq<(String, String)>, i: int, k: Seq<char>)
    requires
        0 <= i < s.len(),
        s[i].0@ != k,
    ensures
        header_value(s.remove(i), k) == header_value(s, k),
    decreases s.len(),
{
    if i == s.len() - 1 {
        assert(s.remove(i) =~= s.drop_last());
    } else {
        assert(s.remove(i).drop_last() =~= s.drop_last().remove(i));
        assert(s.remove(i).last() == s.last());
        lemma_header_value_remove(s.drop_last(), i, k);
    }
}

/// Sets header `key` to `value`, replacing an entry of that name.
fn set_header(headers: &mut Vec<(String, String)>, key: String, value: String)
    requires
        unique_names(old(headers)@),
    ensures
        unique_names(final(headers)@),
        forall|k: Seq<char>|
            #[trigger] header_value(final(headers)@, k) == if k == key@ {
                Some(value@)
            } else {
                header_value(old(headers)@, k)
            },
{
    let ghost s = headers@;
    let mut i: usize = 0;
    let mut found: bool = false;
    while i < headers.len() && !found
        invariant
            headers@ == s,
            i <= s.len(),
            forall|j: int| 0 <= j < i ==> s[j].0@ != key@,
            found ==> i < s.len() && s[i as int].0@ == key@,
        decreases s.len() - i + (if found { 0int } else { 1int }),
    {
        if headers[i].0 == key {
            found = true;
        } else {
            i = i + 1;
        }
    }
    let ghost mid;
    if found {
        headers.remove(i);
        proof {
            mid = s.remove(i as int);
            assert(forall|j: int| 0 <= j < mid.len() ==> mid[j] == (if j < i {
                s[j]
            } else {
                s[j + 1]
            }));
            assert forall|k: Seq<char>| k != key@ implies header_value(mid, k) == header_value(
                s,
                k,
            ) by {
                lemma_header_value_remove(s, i as int, k);
            }
        }
    } else {
        proof {
            mid = s;
        }
    }
    assert(forall|j: int| 0 <= j < mid.len() ==> mid[j].0@ != key@);
    assert(unique_names(mid));
    let ghost x = (key, value);
    headers.push((key, value));
    proof {
        assert(headers@ == mid.push(x));
        assert forall|k: Seq<char>| #[trigger] header_value(headers@, k) == if k == x.0@ {
            Some(x.1@)
        } else {
            header_value(s, k)
        } by {
            lemma_header_value_push(mid, x, k);
        }
    }
}

} // verus!

verus! {

/// The characters of an optional body.
pub open spec fn text_of(body: Option<String>) -> Option<Seq<char>> {
    match body {
        Some(b) => Some(b@),
        None => None,
    }
}

/// The headers a new response carries: `Content-Type` always, inferred from
/// the body, and `Content-Length`, the body's size in UTF-8 bytes, when there
/// is a body.
pub open spec fn default_header(body: Option<Seq<char>>, key: Seq<char>) -> Option<Seq<char>> {
    if key == "Content-Type"@ {
        Some(content_type_for(body))
    } else if key == "Content-Length"@ {
        match body {
            Some(b) => Some(decimal(vstd::utf8::encode_utf8(b).len())),
            None => None,
        }
    } else {
        None
    }
}

impl HttpResponse {
    /// A response with the given status and body, and the default headers.
    pub fn new(status_code: u16, body: Option<String>) -> (r: HttpResponse)
        ensures
            r.status_code == status_code,
            r.body == body,
            r.wf(),
            forall|k: Seq<char>| #[trigger] r.header(k) == default_header(text_of(body), k),
    {
        proof {
            reveal_strlit("Content-Type");
            reveal_strlit("Content-Length");
            reveal_strlit("application/json");
            reveal_strlit("text/plain");
        }
        let mut headers: Vec<(String, String)> = Vec::new();
        let content_type = match &body {
            Some(b) => if looks_like_json_exec(b.as_str()) {
                "application/json"
            } else {
                "text/plain"
            },
            None => "text/plain",
        };
        assert(content_type@ == content_type_for(text_of(body)));
        set_header(&mut headers, String::from_str("Content-Type"), String::from_str(content_type));
        match &body {
            Some(b) => {
                let mut n = String::new();
                push_decimal(&mut n, b.as_str().as_bytes().len());
                assert(n@ == decimal(vstd::utf8::encode_utf8(b@).len()));
                set_header(&mut headers, String::from_str("Content-Length"), n);
            },
            None => {},
        }
        assert forall|k: Seq<char>| #[trigger] header_value(headers@, k) == default_header(
            text_of(body),
            k,
        ) by {
            reveal_strlit("Content-Type");
            reveal_strlit("Content-Length");
            assert("Content-Type"@.len() == 12);
            assert("Content-Length"@.len() == 14);
            assert("Content-Type"@ != "Content-Length"@);
        }
        HttpResponse { status_code, headers, body }
    }

    /// Sets one header, replacing any value it had.
    pub fn insert_header(self, key: &str, value: &str) -> (r: HttpResponse)
        requires
            self.wf(),
        ensures
            r.status_code == self.status_code,
            r.body == self.body,
            r.wf(),
            forall|k: Seq<char>| #[trigger] r.header(k) == if k == key@ {
                Some(value@)
            } else {
                self.header(k)
            },
    {
        let mut headers = self.headers;
        set_header(&mut headers, String::from_str(key), String::from_str(value));
        HttpResponse { status_code: self.status_code, headers, body: self.body }
    }

    /// Sets several headers in order; a later entry wins over an earlier one
    /// and over the value a header had.
    pub fn insert_headers(self, new_headers: Vec<(String, String)>) -> (r: HttpResponse)
        requires
            self.wf(),
        ensures
            r.status_code == self.status_code,
            r.body == self.body,
            r.wf(),
            forall|k: Seq<char>|
                #[trigger] r.header(k) == header_value(self.headers@ + new_headers@, k),
    {
        let ghost old_headers = self.headers@;
        let mut headers = self.headers;
        let mut i: usize = 0;
        while i < new_headers.len()
            invariant
                i <= new_headers@.len(),
                unique_names(headers@),
                forall|k: Seq<char>|
                    #[trigger] header_value(headers@, k) == header_value(
                        old_headers + new_headers@.subrange(0, i as int),
                        k,
                    ),
            decreases new_headers@.len() - i,
        {
            let ghost prev = headers@;
            let key = new_headers[i].0.clone();
            let value = new_headers[i].1.clone();
            set_header(&mut headers, key, value);
            proof {
                let x = new_headers@[i as int];
                let before = old_headers + new_headers@.subrange(0, i as int);
                assert(old_headers + new_headers@.subrange(0, i + 1) =~= before.push(x));
                assert forall|k: Seq<char>| #[trigger] header_value(headers@, k) == header_value(
                    old_headers + new_headers@.subrange(0, i + 1),
                    k,
                ) by {
                    lemma_header_value_push(before, x, k);
                }
            }
            i = i + 1;
        }
        assert(new_headers@.subrange(0, i as int) =~= new_headers@);
        HttpResponse { status_code: self.status_code, headers, body: self.body }
    }

    /// The reason phrase for this response's status code.
    pub fn get_status_message(&self) -> (r: &'static str)
        ensures
            r@ == status_message(self.status_code),
    {
        if self.status_code == 200 {
            "OK"
        } else if self.status_code == 201 {
            "Created"
        } else if self.status_code == 400 {
            "Bad Request"
        } else if self.status_code == 404 {
            "Not Found"
        } else if self.status_code == 500 {
            "Internal Server Error"
        } else {
            "Unknown Status"
        }
    }
}

} // verus!

verus! {

/// The header lines, one `name: value\r\n` per entry, in order.
pub open spec fn headers_text(hs: Seq<(String, String)>) -> Seq<char>
    decreases hs.len(),
{
    if hs.len() == 0 {
        Seq::empty()
    } else {
        headers_text(hs.drop_last()) + hs.last().0@ + ": "@ + hs.last().1@ + "\r\n"@
    }
}

/// Status line, header lines and the blank line that ends them.
pub open spec fn head_text(r: HttpResponse) -> Seq<char> {
    "HTTP/1.1 "@ + decimal(r.status_code as nat) + " "@ + status_message(r.status_code) + "\r\n"@
        + headers_text(r.headers@) + "\r\n"@
}

/// The bytes sent for a response: its head, then its body, in UTF-8.
pub open spec fn response_bytes(r: HttpResponse) -> Seq<u8> {
    vstd::utf8::encode_utf8(head_text(r)) + match r.body {
        Some(b) => vstd::utf8::encode_utf8(b@),
        None => Seq::empty(),
    }
}

/// Writes a response out as bytes.
pub fn serialize(response: &HttpResponse) -> (r: Vec<u8>)
    ensures
        r@ == response_bytes(*response),
{
    let mut head = String::from_str("HTTP/1.1 ");
    push_decimal(&mut head, response.status_code as usize);
    head.append(" ");
    head.append(response.get_status_message());
    head.append("\r\n");
    let ghost start = head@;
    let mut i: usize = 0;
    while i < response.headers.len()
        invariant
            i <= response.headers@.len(),
            head@ == start + headers_text(response.headers@.subrange(0, i as int)),
        decreases response.headers@.len() - i,
    {
        let ghost before = head@;
        head.append(response.headers[i].0.as_str());
        head.append(": ");
        head.append(response.headers[i].1.as_str());
        head.append("\r\n");
        proof {
            let hs = response.headers@.subrange(0, i + 1);
            assert(hs.drop_last() =~= response.headers@.subrange(0, i as int));
            assert(head@ =~= start + headers_text(hs));
        }
        i = i + 1;
    }
    assert(response.headers@.subrange(0, i as int) =~= response.headers@);
    head.append("\r\n");
    assert(head@ =~= head_text(*response));
    let mut out = head.as_str().as_bytes_vec();
    match &response.body {
        Some(b) => crate::bytes::push_all(&mut out, b.as_str().as_bytes()),
        None => {},
    }
    assert(out@ =~= response_bytes(*response));
    out
}

} // verus!

verus! {

/// The ASCII bytes of a string of ASCII characters.
pub open spec fn ascii_bytes(s: Seq<char>) -> Seq<u8> {
    s.map_values(|c: char| c as u8)
}

proof fn lemma_decimal_reads_back(n: nat)
    ensures
        crate::request::digits_value(ascii_bytes(decimal(n))) == n,
        ascii_bytes(decimal(n)).len() > 0,
        forall|k: int|
            0 <= k < ascii_bytes(decimal(n)).len() ==> #[trigger] crate::request::is_digit(
                ascii_bytes(decimal(n))[k],
            ),
    decreases n,
{
    let d = ascii_bytes(decimal(n));
    if n < 10 {
        assert(digit_char(n) as u8 == (n + 48) as u8);
        assert(d[0] == (n + 48) as u8);
        assert(d.drop_last() =~= Seq::<u8>::empty());
        assert(crate::request::digits_value(d.drop_last()) == 0);
        assert(d.last() == d[0]);
    } else {
        lemma_decimal_reads_back(n / 10);
        let front = ascii_bytes(decimal(n / 10));
        assert(d =~= front.push((n % 10 + 48) as u8));
        assert(d.drop_last() =~= front);
        assert(n == (n / 10) * 10 + n % 10);
        assert(d.last() == (n % 10 + 48) as u8);
        assert(crate::request::digits_value(d) == (n / 10) * 10 + n % 10);
    }
}

/// The `Content-Length` of a new response, read back the way the request
/// reader reads that header, is the body's size in bytes.
pub proof fn lemma_content_length_round_trip(body: Seq<char>)
    requires
        vstd::utf8::encode_utf8(body).len() <= usize::MAX,
    ensures
        ({
            let n = vstd::utf8::encode_utf8(body).len();
            &&& default_header(Some(body), "Content-Length"@) == Some(decimal(n))
            &&& crate::request::parse_usize(ascii_bytes(decimal(n))) == Some(n)
        }),
{
    reveal_strlit("Content-Type");
    reveal_strlit("Content-Length");
    assert("Content-Type"@.len() != "Content-Length"@.len());
    let n = vstd::utf8::encode_utf8(body).len();
    lemma_decimal_reads_back(n);
    let d = ascii_bytes(decimal(n));
    assert(crate::request::is_digit(d[0]));
    assert(crate::request::strip_plus(d) == d);
}

} // verus!
