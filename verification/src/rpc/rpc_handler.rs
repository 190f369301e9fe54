use vstd::prelude::*;
use vstd::string::StringExecFns;
use vstd::string::StringSliceAdditionalSpecFns;
use crate::types::text::number_text;
use crate::types::u256::{decimal_value, is_decimal_digits, lemma_decimal_front, U256};

verus! {

/// What a request asks for.
#[derive(Debug, Clone, Copy, PartialEq, Eq, Structural)]
pub enum Method {
    /// Read a file of accounts and publish its edges.
    LoadSafesBinary,
    /// Compute a transfer.
    ComputeTransfer,
    /// Apply updates to the edges and publish the result.
    UpdateEdges,
    /// Anything else.
    Unknown,
}

/// The method that a request names.
pub open spec fn method_named(name: Seq<char>) -> Method {
    if name == "load_safes_binary"@ {
        Method::LoadSafesBinary
    } else if name == "compute_transfer"@ {
        Method::ComputeTransfer
    } else if name == "update_edges"@ {
        Method::UpdateEdges
    } else {
        Method::Unknown
    }
}

/// Whether two texts are the same.
fn same_text(a: &str, b: &str) -> (r: bool)
    ensures
        r == (a@ == b@),
{
    let x = a.to_owned();
    let y = b.to_owned();
    x == y
}

/// The method that a request names.
pub fn method_of(name: &str) -> (r: Method)
    ensures
        r == method_named(name@),
{
    if same_text(name, "load_safes_binary") {
        Method::LoadSafesBinary
    } else if same_text(name, "compute_transfer") {
        Method::ComputeTransfer
    } else if same_text(name, "update_edges") {
        Method::UpdateEdges
    } else {
        Method::Unknown
    }
}

/// The code with which a failure is reported: -32601 for a method that is not known,
/// -32602 for arguments that have not the form the method takes, -32000 for
/// everything else.
pub fn error_code(method: Method, arguments_fit: bool) -> (r: i64)
    ensures
        r == if method == Method::Unknown {
            -32601int
        } else if !arguments_fit {
            -32602
        } else {
            -32000
        },
{
    if method == Method::Unknown {
        -32601
    } else if !arguments_fit {
        -32602
    } else {
        -32000
    }
}

/// The answer to a request as it goes over the wire: the status line, the length of
/// the payload in bytes, an empty line, and the payload.
pub fn json_rpc_response(json_payload: String) -> (r: String)
    ensures
        r@ == "HTTP/1.1 200 OK\r\nContent-Length: "@ + number_text(
            vstd::utf8::encode_utf8(json_payload@).len(),
            10,
        ) + "\r\n\r\n"@ + json_payload@,
{
    let length = json_payload.as_str().as_bytes().len();
    let mut out = String::from_str("HTTP/1.1 200 OK\r\nContent-Length: ");
    let count = U256::new(0, length as u128);
    assert(count@ == length);
    assert(length == vstd::utf8::encode_utf8(json_payload@).len());
    out.append(count.to_decimal().as_str());
    out.append("\r\n\r\n");
    out.append(json_payload.as_str());
    out
}

/// What a line of the head of a request says.
#[derive(Debug, Clone, Copy, PartialEq, Eq, Structural)]
pub enum HeaderLine {
    /// Nothing about the length of the payload.
    Other,
    /// The length of the payload in bytes.
    ContentLength(usize),
    /// The length of the payload, but not as a number that can be a length.
    Malformed,
}

/// An ASCII letter in lower case, any other byte as it is.
pub open spec fn lower(b: u8) -> u8 {
    if 0x41 <= b <= 0x5a {
        (b + 0x20) as u8
    } else {
        b
    }
}

/// The name of the line that gives the length, `content-length: `, in bytes.
pub open spec fn content_length_name() -> Seq<u8> {
    seq![
        0x63u8, 0x6f, 0x6e, 0x74, 0x65, 0x6e, 0x74, 0x2d, 0x6c, 0x65, 0x6e, 0x67, 0x74, 0x68, 0x3a,
        0x20,
    ]
}

/// Whether a line starts with `content-length: `, in either case.
pub open spec fn names_content_length(line: Seq<u8>) -> bool {
    line.len() >= 16 && forall|i: int|
        0 <= i < 16 ==> lower(#[trigger] line[i]) == content_length_name()[i]
}

/// What a line of the head of a request says: the length of the payload where it
/// starts with `content-length: ` and goes on with decimal digits that stand for a
/// number that can be a length.
pub open spec fn header_line_of(line: Seq<u8>) -> HeaderLine {
    if !names_content_length(line) {
        HeaderLine::Other
    } else if line.len() > 16 && is_decimal_digits(line.skip(16)) && decimal_value(line.skip(16))
        <= usize::MAX {
        HeaderLine::ContentLength(decimal_value(line.skip(16)) as usize)
    } else {
        HeaderLine::Malformed
    }
}

/// What a line of the head of a request says.
pub fn header_line(line: &[u8]) -> (r: HeaderLine)
    ensures
        r == header_line_of(line@),
{
    let n = line.len();
    if n < 16 {
        return HeaderLine::Other;
    }
    let name: [u8; 16] = [
        0x63, 0x6f, 0x6e, 0x74, 0x65, 0x6e, 0x74, 0x2d, 0x6c, 0x65, 0x6e, 0x67, 0x74, 0x68, 0x3a, 0x20,
    ];
    assert(name@ =~= content_length_name());
    let mut i: usize = 0;
    while i < 16
        invariant
            i <= 16,
            n == line@.len(),
            n >= 16,
            name@ == content_length_name(),
            forall|k: int| 0 <= k < i ==> lower(#[trigger] line@[k]) == content_length_name()[k],
        decreases 16 - i,
    {
        let b = line[i];
        let low = if 0x41 <= b && b <= 0x5a { b + 0x20 } else { b };
        if low != name[i] {
            return HeaderLine::Other;
        }
        i += 1;
    }
    assert(names_content_length(line@));
    if n == 16 {
        return HeaderLine::Malformed;
    }
    let ghost digits = line@.skip(16);
    let mut value: usize = 0;
    let mut j: usize = 16;
    while j < n
        invariant
            16 <= j <= n,
            n == line@.len(),
            n > 16,
            names_content_length(line@),
            digits == line@.skip(16),
            is_decimal_digits(digits.take(j - 16)),
            value == decimal_value(digits.take(j - 16)),
        decreases n - j,
    {
        let b = line[j];
        if b < 0x30 || b > 0x39 {
            assert(!is_decimal_digits(digits)) by {
                assert(digits[j - 16] == b);
            }
            return HeaderLine::Malformed;
        }
        proof {
            let now = digits.take(j - 16 + 1);
            assert(now.drop_last() =~= digits.take(j - 16));
            assert(now.last() == b);
            assert(is_decimal_digits(now)) by {
                assert forall|k: int| 0 <= k < now.len() implies 0x30 <= #[trigger] now[k] <= 0x39 by {
                    if k < j - 16 {
                        assert(now[k] == digits.take(j - 16)[k]);
                    }
                }
            }
        }
        let next = match value.checked_mul(10) {
            Some(tens) => tens.checked_add((b - 0x30) as usize),
            None => None,
        };
        match next {
            Some(next) => {
                value = next;
            },
            None => {
                proof {
                    if is_decimal_digits(digits) {
                        lemma_decimal_front(digits, j - 16 + 1);
                    }
                }
                return HeaderLine::Malformed;
            },
        }
        j += 1;
    }
    proof {
        assert(digits.take(n - 16) =~= digits);
    }
    HeaderLine::ContentLength(value)
}

} // verus!
