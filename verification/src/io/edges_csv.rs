use vstd::prelude::*;
use vstd::slice::slice_subrange;
use vstd::string::StringExecFns;
use vstd::utf8::{encode_utf8, is_ascii_chars};
use crate::graph::address_text;
use crate::types::address::{lemma_pow16_40, Address};
use crate::types::edge::{Edge, EdgeDB};
use crate::types::text::{
    digit_char, digit_count, digits_lsb, fixed_text, number_text, text_of_digits,
};
use crate::types::u256::{
    decimal_value, hex_digit_value, hex_value, is_decimal_digits, is_decimal_literal,
    is_hex_digits, is_hex_literal, lemma_hex_value_bound, modulus, pow16, U256,
};

verus! {

/// Why a text of edges could not be read.
#[derive(Debug, Clone, Copy, PartialEq, Eq, Structural)]
pub enum CsvError {
    /// A line has not four fields.
    FieldCount,
    /// A field that should be an address is not `0x` and 40 hexadecimal digits.
    InvalidAddress,
    /// A field that should be an amount is neither decimal digits nor `0x` and
    /// hexadecimal digits, or does not fit in 256 bits.
    InvalidAmount,
}

/// The place of the first byte `b`, or the length where there is none.
pub open spec fn index_of_byte(s: Seq<u8>, b: u8) -> int
    decreases s.len(),
{
    if s.len() == 0 {
        0
    } else if s[0] == b {
        0
    } else {
        1 + index_of_byte(s.skip(1), b)
    }
}

/// The first byte `b` is where no byte before it is `b`.
pub proof fn lemma_index_of_byte(s: Seq<u8>, b: u8, i: int)
    requires
        0 <= i <= s.len(),
        forall|k: int| 0 <= k < i ==> s[k] != b,
        i < s.len() ==> s[i] == b,
    ensures
        index_of_byte(s, b) == i,
    decreases i,
{
    if i > 0 {
        assert forall|k: int| 0 <= k < i - 1 implies s.skip(1)[k] != b by {
            assert(s.skip(1)[k] == s[k + 1]);
        }
        lemma_index_of_byte(s.skip(1), b, i - 1);
    }
}

/// A field without the quotes around it: the same quote, single or double, at both
/// ends.
pub open spec fn unquoted(f: Seq<u8>) -> Seq<u8> {
    if f.len() >= 2 && f[0] == f[f.len() - 1] && (f[0] == 0x27 || f[0] == 0x22) {
        f.subrange(1, f.len() - 1)
    } else {
        f
    }
}

/// The address that a field stands for: `0x` and 40 hexadecimal digits.
pub open spec fn csv_address(f: Seq<u8>) -> Option<Address> {
    if f.len() == 42 && f[0] == 0x30 && f[1] == 0x78 && is_hex_digits(f.skip(2)) {
        Some(Address::from_nat(hex_value(f.skip(2))))
    } else {
        None
    }
}

/// The amount that a field stands for: `0x` and hexadecimal digits, or decimal
/// digits.
pub open spec fn csv_amount(f: Seq<u8>) -> Option<U256> {
    if is_hex_literal(f) {
        Some(U256::from_nat(hex_value(f.skip(2))))
    } else if is_decimal_literal(f) {
        Some(U256::from_nat(decimal_value(f)))
    } else {
        None
    }
}

/// The edge that four fields stand for: sender, receiver, token and capacity, each
/// with or without quotes.
pub open spec fn edge_of_fields(f1: Seq<u8>, f2: Seq<u8>, f3: Seq<u8>, f4: Seq<u8>) -> Result<
    Edge,
    CsvError,
> {
    match csv_address(unquoted(f1)) {
        None => Err(CsvError::InvalidAddress),
        Some(from) => match csv_address(unquoted(f2)) {
            None => Err(CsvError::InvalidAddress),
            Some(to) => match csv_address(unquoted(f3)) {
                None => Err(CsvError::InvalidAddress),
                Some(token) => match csv_amount(unquoted(f4)) {
                    None => Err(CsvError::InvalidAmount),
                    Some(capacity) => Ok(Edge { from, to, token, capacity }),
                },
            },
        },
    }
}

/// The edge that a line stands for: four fields with a comma between any two.
pub open spec fn edge_of_line(line: Seq<u8>) -> Result<Edge, CsvError> {
    let c1 = index_of_byte(line, 0x2c);
    if c1 >= line.len() {
        Err(CsvError::FieldCount)
    } else {
        let r1 = line.skip(c1 + 1);
        let c2 = index_of_byte(r1, 0x2c);
        if c2 >= r1.len() {
            Err(CsvError::FieldCount)
        } else {
            let r2 = r1.skip(c2 + 1);
            let c3 = index_of_byte(r2, 0x2c);
            if c3 >= r2.len() {
                Err(CsvError::FieldCount)
            } else {
                let r3 = r2.skip(c3 + 1);
                if index_of_byte(r3, 0x2c) < r3.len() {
                    Err(CsvError::FieldCount)
                } else {
                    edge_of_fields(line.take(c1), r1.take(c2), r2.take(c3), r3)
                }
            }
        }
    }
}

/// A line without the carriage return at its end, if it has one.
pub open spec fn without_return(line: Seq<u8>) -> Seq<u8> {
    if line.len() >= 1 && line[line.len() - 1] == 0x0d {
        line.drop_last()
    } else {
        line
    }
}

/// The edges read so far and the edges that the lines of a text stand for, one edge
/// a line. An empty line stands for nothing.
pub open spec fn csv_from(data: Seq<u8>, read: Seq<Edge>) -> Result<Seq<Edge>, CsvError>
    decreases data.len(),
{
    let i = index_of_byte(data, 0x0a);
    let line = without_return(data.take(i));
    let with_line = if line.len() == 0 {
        Ok(read)
    } else {
        match edge_of_line(line) {
            Ok(e) => Ok(read.push(e)),
            Err(x) => Err(x),
        }
    };
    match with_line {
        Err(x) => Err(x),
        Ok(now) => if 0 <= i < data.len() {
            csv_from(data.skip(i + 1), now)
        } else {
            Ok(now)
        },
    }
}

/// The edges that a text stands for.
pub open spec fn csv_edges(data: Seq<u8>) -> Result<Seq<Edge>, CsvError> {
    csv_from(data, Seq::empty())
}

/// The place of the first byte `b` from `from` on, or `end` where there is none
/// before it.
fn find_byte(data: &[u8], from: usize, end: usize, b: u8) -> (r: usize)
    requires
        from <= end <= data@.len(),
    ensures
        from <= r <= end,
        r - from == index_of_byte(data@.subrange(from as int, end as int), b),
        r < end ==> data@[r as int] == b,
{
    let mut i: usize = from;
    while i < end && data[i] != b
        invariant
            from <= i <= end,
            end <= data@.len(),
            forall|k: int| from <= k < i ==> data@[k] != b,
        decreases end - i,
    {
        i += 1;
    }
    proof {
        let s = data@.subrange(from as int, end as int);
        assert forall|k: int| 0 <= k < i - from implies s[k] != b by {
            assert(s[k] == data@[from + k]);
        }
        lemma_index_of_byte(s, b, i - from);
    }
    i
}

/// A field without the quotes around it.
fn unquote(field: &[u8]) -> (r: &[u8])
    ensures
        r@ == unquoted(field@),
{
    let n = field.len();
    if n >= 2 && field[0] == field[n - 1] && (field[0] == 0x27 || field[0] == 0x22) {
        slice_subrange(field, 1, n - 1)
    } else {
        field
    }
}

/// Reads an address field.
fn parse_address(field: &[u8]) -> (r: Option<Address>)
    ensures
        r == csv_address(field@),
{
    if field.len() != 42 || field[0] != 0x30 || field[1] != 0x78 {
        return None;
    }
    match U256::from_hex_digits(field, 2) {
        None => None,
        Some(value) => {
            proof {
                lemma_hex_value_bound(field@.skip(2));
                lemma_pow16_40();
            }
            let a = Address::from_u256(value);
            proof {
                Address::lemma_from_nat(a@);
                Address::lemma_view_injective(a, Address::from_nat(a@));
            }
            Some(a)
        },
    }
}

/// Reads an amount field.
fn parse_amount(field: &[u8]) -> (r: Option<U256>)
    ensures
        r == csv_amount(field@),
{
    let value = match U256::from_hex_bytes(field) {
        Some(value) => Some(value),
        None => U256::from_decimal_bytes(field),
    };
    proof {
        if value is Some {
            U256::lemma_limbs(value->0);
            U256::lemma_from_nat(value->0@);
            U256::lemma_view_injective(value->0, U256::from_nat(value->0@));
        }
    }
    value
}

/// Reads one line.
fn parse_line(line: &[u8]) -> (r: Result<Edge, CsvError>)
    ensures
        r == edge_of_line(line@),
{
    let n = line.len();
    let comma1 = find_byte(line, 0, n, 0x2c);
    proof {
        assert(line@.subrange(0, n as int) =~= line@);
    }
    if comma1 >= n {
        return Err(CsvError::FieldCount);
    }
    let comma2 = find_byte(line, comma1 + 1, n, 0x2c);
    let ghost r1 = line@.skip(comma1 + 1);
    proof {
        assert(line@.subrange(comma1 + 1, n as int) =~= r1);
    }
    if comma2 >= n {
        return Err(CsvError::FieldCount);
    }
    let comma3 = find_byte(line, comma2 + 1, n, 0x2c);
    let ghost r2 = r1.skip(comma2 - comma1);
    proof {
        assert(line@.subrange(comma2 + 1, n as int) =~= r2);
    }
    if comma3 >= n {
        return Err(CsvError::FieldCount);
    }
    let comma4 = find_byte(line, comma3 + 1, n, 0x2c);
    let ghost r3 = r2.skip(comma3 - comma2);
    proof {
        assert(line@.subrange(comma3 + 1, n as int) =~= r3);
    }
    if comma4 < n {
        return Err(CsvError::FieldCount);
    }
    let f1 = slice_subrange(line, 0, comma1);
    let f2 = slice_subrange(line, comma1 + 1, comma2);
    let f3 = slice_subrange(line, comma2 + 1, comma3);
    let f4 = slice_subrange(line, comma3 + 1, n);
    proof {
        assert(f1@ =~= line@.take(comma1 as int));
        assert(f2@ =~= r1.take(comma2 - comma1 - 1));
        assert(f3@ =~= r2.take(comma3 - comma2 - 1));
        assert(f4@ =~= r3);
    }
    let from = match parse_address(unquote(f1)) {
        Some(a) => a,
        None => {
            return Err(CsvError::InvalidAddress);
        },
    };
    let to = match parse_address(unquote(f2)) {
        Some(a) => a,
        None => {
            return Err(CsvError::InvalidAddress);
        },
    };
    let token = match parse_address(unquote(f3)) {
        Some(a) => a,
        None => {
            return Err(CsvError::InvalidAddress);
        },
    };
    let capacity = match parse_amount(unquote(f4)) {
        Some(c) => c,
        None => {
            return Err(CsvError::InvalidAmount);
        },
    };
    Ok(Edge { from, to, token, capacity })
}

/// Reads a text of edges, one edge a line: sender, receiver, token and capacity with
/// a comma between any two, each with or without quotes around it. The addresses are
/// `0x` and 40 hexadecimal digits, the capacity decimal digits or `0x` and
/// hexadecimal digits. Empty lines are passed over.
pub fn read_edges_csv(data: &[u8]) -> (r: Result<EdgeDB, CsvError>)
    ensures
        match csv_edges(data@) {
            Err(x) => r == Err::<EdgeDB, CsvError>(x),
            Ok(list) => r is Ok && r->Ok_0.wf() && r->Ok_0@ == list,
        },
{
    let n = data.len();
    let mut edges: Vec<Edge> = Vec::new();
    let mut pos: usize = 0;
    let mut more = true;
    proof {
        assert(data@.skip(0) =~= data@);
    }
    while more
        invariant
            pos <= n,
            n == data@.len(),
            more ==> csv_from(data@.skip(pos as int), edges@) == csv_edges(data@),
            !more ==> csv_edges(data@) == Ok::<Seq<Edge>, CsvError>(edges@),
        decreases n - pos + (if more { 1int } else { 0 }),
    {
        let end = find_byte(data, pos, n, 0x0a);
        let ghost rest = data@.skip(pos as int);
        proof {
            assert(data@.subrange(pos as int, n as int) =~= rest);
        }
        let whole = slice_subrange(data, pos, end);
        let line = if whole.len() >= 1 && whole[whole.len() - 1] == 0x0d {
            slice_subrange(whole, 0, whole.len() - 1)
        } else {
            whole
        };
        proof {
            assert(whole@ =~= rest.take(end - pos));
            assert(line@ =~= without_return(rest.take(end - pos)));
        }
        if line.len() > 0 {
            match parse_line(line) {
                Ok(e) => {
                    edges.push(e);
                },
                Err(x) => {
                    return Err(x);
                },
            }
        }
        if end < n {
            proof {
                assert(rest.skip(end - pos + 1) =~= data@.skip(end + 1));
            }
            pos = end + 1;
        } else {
            more = false;
        }
    }
    Ok(EdgeDB::new(edges))
}

/// An edge as a line of text: sender, receiver and token as `0x` and 40 hexadecimal
/// digits, and the capacity in decimal, with a comma between any two and a line feed
/// at the end.
pub open spec fn csv_line(e: Edge) -> Seq<char> {
    address_text(e.from) + ","@ + address_text(e.to) + ","@ + address_text(e.token) + ","@
        + number_text(e.capacity@, 10) + "\n"@
}

/// Edges as text, one edge a line.
pub open spec fn csv_text(edges: Seq<Edge>) -> Seq<char>
    decreases edges.len(),
{
    if edges.len() == 0 {
        Seq::empty()
    } else {
        csv_text(edges.drop_last()) + csv_line(edges.last())
    }
}

/// Writes edges as text, one edge a line.
pub fn write_edges_csv(edges: &EdgeDB) -> (r: String)
    ensures
        r@ == csv_text(edges@),
{
    let list = edges.edges();
    let mut out = String::from_str("");
    proof {
        reveal_strlit("");
        assert(out@ =~= csv_text(list@.take(0)));
    }
    let mut i: usize = 0;
    while i < list.len()
        invariant
            i <= list@.len(),
            out@ == csv_text(list@.take(i as int)),
        decreases list@.len() - i,
    {
        let e = list[i];
        let ghost before = out@;
        out.append(e.from.to_string().as_str());
        out.append(",");
        out.append(e.to.to_string().as_str());
        out.append(",");
        out.append(e.token.to_string().as_str());
        out.append(",");
        out.append(e.capacity.to_decimal().as_str());
        out.append("\n");
        proof {
            assert(list@.take(i + 1).drop_last() =~= list@.take(i as int));
            assert(out@ =~= before + csv_line(e));
        }
        i += 1;
    }
    assert(list@.take(i as int) =~= list@);
    out
}

/// The bytes of a text of ASCII characters.
pub open spec fn ascii(text: Seq<char>) -> Seq<u8> {
    Seq::new(text.len(), |i: int| text[i] as u8)
}

/// The bytes of two texts put together are their bytes put together.
proof fn lemma_ascii_joined(a: Seq<char>, b: Seq<char>)
    ensures
        ascii(a + b) == ascii(a) + ascii(b),
{
    assert(ascii(a + b) =~= ascii(a) + ascii(b));
}

/// The byte of a digit below sixteen is an ASCII digit or a lower-case letter from
/// `a` to `f`, and stands for the digit.
proof fn lemma_digit_byte(d: u8)
    requires
        d < 16,
    ensures
        digit_char(d) as u8 == (if d < 10 {
            0x30 + d
        } else {
            0x61 + d - 10
        }),
        hex_digit_value(digit_char(d) as u8) == d,
        '\0' <= digit_char(d) <= '\u{7f}',
{
}

/// The text of a run of digits without its last character is the text of the run
/// without its first digit.
proof fn lemma_text_front(digits: Seq<u8>)
    requires
        digits.len() >= 1,
    ensures
        text_of_digits(digits).drop_last() == text_of_digits(digits.skip(1)),
        text_of_digits(digits).last() == digit_char(digits[0]),
{
    assert(text_of_digits(digits).drop_last() =~= text_of_digits(digits.skip(1)));
}

/// A number written in hexadecimal with `k` digits is `k` hexadecimal digits in
/// lower case that stand for the number, as far as `k` digits reach.
proof fn lemma_hex_text(n: nat, k: nat)
    ensures
        ascii(fixed_text(n, 16, k)).len() == k,
        is_hex_digits(ascii(fixed_text(n, 16, k))),
        hex_value(ascii(fixed_text(n, 16, k))) == n % pow16(k),
        forall|i: int|
            0 <= i < k ==> 0x30 <= #[trigger] ascii(fixed_text(n, 16, k))[i] <= 0x66,
        forall|i: int| 0 <= i < k ==> '\0' <= #[trigger] fixed_text(n, 16, k)[i] <= '\u{7f}',
    decreases k,
{
    let text = fixed_text(n, 16, k);
    let t = ascii(text);
    if k == 0 {
        assert(digits_lsb(n, 16, 0) =~= Seq::<u8>::empty());
    } else {
        let digits = digits_lsb(n, 16, k);
        let rest = digits_lsb(n / 16, 16, (k - 1) as nat);
        assert(digits.skip(1) =~= rest);
        lemma_text_front(digits);
        lemma_hex_text(n / 16, (k - 1) as nat);
        let front = fixed_text(n / 16, 16, (k - 1) as nat);
        assert(text.drop_last() == front);
        let d = (n % 16) as u8;
        lemma_digit_byte(d);
        assert(t.drop_last() =~= ascii(front));
        assert(t.last() == digit_char(d) as u8);
        assert forall|i: int| 0 <= i < k implies hex_digit_value(#[trigger] t[i]) < 16 && 0x30
            <= t[i] <= 0x66 && '\0' <= text[i] <= '\u{7f}' by {
            if i < k - 1 {
                assert(t[i] == ascii(front)[i]);
                assert(text[i] == front[i]);
            }
        }
        let p = pow16((k - 1) as nat) as int;
        crate::types::u256::lemma_pow16_monotonic(0, (k - 1) as nat);
        let q = (n / 16) as int / p;
        let r = (n / 16) as int % p;
        vstd::arithmetic::div_mod::lemma_fundamental_div_mod((n / 16) as int, p);
        assert((n as int) == (16 * p) * q + (16 * r + n % 16)) by (nonlinear_arith)
            requires
                (n / 16) as int == p * q + r,
                n as int == 16 * (n / 16) + n % 16,
        ;
        vstd::arithmetic::div_mod::lemma_fundamental_div_mod_converse(
            n as int,
            16 * p,
            q,
            16 * r + n % 16,
        );
    }
}

/// A number is below sixteen to the number of its hexadecimal digits, and, where it
/// has more than one digit, not below sixteen to one less.
proof fn lemma_hex_digit_count(n: nat)
    ensures
        n < pow16(digit_count(n, 16)),
        digit_count(n, 16) > 1 ==> n >= pow16((digit_count(n, 16) - 1) as nat),
        digit_count(n, 16) >= 1,
    decreases n,
{
    if n >= 16 {
        lemma_hex_digit_count(n / 16);
        let k = digit_count(n / 16, 16);
        assert(pow16(k + 1) == 16 * pow16(k));
        assert(pow16(1) == 16) by {
            assert(pow16(1) == 16 * pow16(0));
        }
        if k > 1 {
            assert(pow16(k) == 16 * pow16((k - 1) as nat));
        }
    } else {
        assert(pow16(1) == 16) by {
            assert(pow16(1) == 16 * pow16(0));
        }
    }
}

/// The text that an amount is written as in hexadecimal: `0x`, then its digits.
pub open spec fn hex_text(x: U256) -> Seq<char> {
    seq!['0', 'x'] + number_text(x@, 16)
}

/// The hexadecimal text of an amount, read again, is the amount: the text is `0x`
/// and at most 64 hexadecimal digits, and they stand for the amount.
pub proof fn lemma_hex_text_is_read(x: U256)
    ensures
        is_hex_literal(encode_utf8(hex_text(x))),
        hex_value(encode_utf8(hex_text(x)).skip(2)) == x@,
{
    let k = digit_count(x@, 16);
    let digits = number_text(x@, 16);
    lemma_hex_text(x@, k);
    lemma_hex_digit_count(x@);
    x.lemma_limbs();
    crate::types::u256::lemma_pow16_64();
    if k > 64 {
        crate::types::u256::lemma_pow16_monotonic(64, (k - 1) as nat);
    }
    vstd::arithmetic::div_mod::lemma_small_mod(x@, pow16(k));
    let text = hex_text(x);
    assert(is_ascii_chars(text)) by {
        assert forall|i: int| 0 <= i < text.len() implies '\0' <= #[trigger] text[i]
            <= '\u{7f}' by {
            if i >= 2 {
                assert(text[i] == digits[i - 2]);
            }
        }
    }
    vstd::utf8::is_ascii_chars_encode_utf8(text);
    let bytes = encode_utf8(text);
    assert(bytes =~= ascii(text));
    assert(bytes.skip(2) =~= ascii(digits));
}

/// A zero before hexadecimal digits does not change what they stand for.
pub proof fn lemma_hex_leading_zero(digits: Seq<u8>)
    ensures
        hex_value(seq![0x30u8] + digits) == hex_value(digits),
    decreases digits.len(),
{
    let with_zero = seq![0x30u8] + digits;
    if digits.len() == 0 {
        assert(with_zero.drop_last() =~= Seq::<u8>::empty());
        assert(with_zero.last() == 0x30u8);
        assert(hex_value(with_zero.drop_last()) == 0);
        assert(hex_value(with_zero) == hex_value(with_zero.drop_last()) * 16 + hex_digit_value(
            with_zero.last(),
        ));
    } else {
        lemma_hex_leading_zero(digits.drop_last());
        assert(with_zero.drop_last() =~= seq![0x30u8] + digits.drop_last());
        assert(with_zero.last() == digits.last());
        assert(hex_value(with_zero) == hex_value(with_zero.drop_last()) * 16 + hex_digit_value(
            with_zero.last(),
        ));
    }
}

/// A number written in decimal is decimal digits, at least one, that stand for the
/// number.
proof fn lemma_decimal_text(n: nat)
    ensures
        ascii(number_text(n, 10)).len() >= 1,
        is_decimal_digits(ascii(number_text(n, 10))),
        decimal_value(ascii(number_text(n, 10))) == n,
        forall|i: int|
            0 <= i < number_text(n, 10).len() ==> '\0' <= #[trigger] number_text(n, 10)[i]
                <= '\u{7f}',
    decreases n,
{
    let c = digit_count(n, 10);
    let digits = digits_lsb(n, 10, c);
    let text = number_text(n, 10);
    let t = ascii(text);
    let d = (n % 10) as u8;
    lemma_digit_byte(d);
    lemma_text_front(digits);
    if n < 10 {
        assert(digits_lsb(n / 10, 10, 0) =~= Seq::<u8>::empty());
        assert(digits =~= seq![d]);
        assert(t =~= seq![digit_char(d) as u8]);
        assert(t.drop_last() =~= Seq::<u8>::empty());
        assert(t.last() == 0x30 + d);
        assert(decimal_value(t.drop_last()) == 0);
        assert(decimal_value(t) == n);
    } else {
        lemma_decimal_text(n / 10);
        let front = number_text(n / 10, 10);
        assert(digits.skip(1) =~= digits_lsb(n / 10, 10, digit_count(n / 10, 10)));
        assert(text.drop_last() == front);
        assert(t.drop_last() =~= ascii(front));
        assert(t.last() == digit_char(d) as u8);
        assert forall|i: int| 0 <= i < t.len() implies 0x30 <= #[trigger] t[i] <= 0x39 && '\0'
            <= text[i] <= '\u{7f}' by {
            if i < t.len() - 1 {
                assert(t[i] == ascii(front)[i]);
                assert(text[i] == front[i]);
            }
        }
        assert(t.last() == 0x30 + d);
        assert(decimal_value(t.drop_last()) == n / 10);
        assert(decimal_value(t) == (n / 10) * 10 + d);
    }
}

/// An address as it is written is a field of 42 bytes without comma or line feed
/// that is read as the address.
proof fn lemma_address_field(a: Address)
    ensures
        ascii(address_text(a)).len() == 42,
        csv_address(unquoted(ascii(address_text(a)))) == Some(a),
        forall|i: int|
            0 <= i < 42 ==> (#[trigger] ascii(address_text(a))[i]) != 0x2c && ascii(address_text(a))[i] != 0x0a,
        is_ascii_chars(address_text(a)),
{
    let digits = fixed_text(a@, 16, 40);
    let f = ascii(address_text(a));
    lemma_hex_text(a@, 40);
    lemma_ascii_joined(seq!['0', 'x'], digits);
    assert(ascii(seq!['0', 'x']) =~= seq![0x30u8, 0x78u8]);
    assert(f =~= seq![0x30u8, 0x78u8] + ascii(digits));
    assert(f.skip(2) =~= ascii(digits));
    assert forall|i: int| 0 <= i < 42 implies (#[trigger] f[i]) != 0x2c && f[i] != 0x0a by {
        if i >= 2 {
            assert(f[i] == ascii(digits)[i - 2]);
        }
    }
    assert(unquoted(f) == f);
    Address::lemma_bound(a);
    lemma_pow16_40();
    vstd::arithmetic::div_mod::lemma_small_mod(a@, pow16(40));
    Address::lemma_from_nat(a@);
    Address::lemma_view_injective(a, Address::from_nat(a@));
    assert(is_ascii_chars(address_text(a))) by {
        assert forall|i: int| 0 <= i < address_text(a).len() implies '\0' <= #[trigger] address_text(
            a,
        )[i] <= '\u{7f}' by {
            if i >= 2 {
                assert(address_text(a)[i] == digits[i - 2]);
            }
        }
    }
}

/// An amount as it is written is a field of at least one byte without comma, line
/// feed or carriage return that is read as the amount.
proof fn lemma_amount_field(c: U256)
    ensures
        ascii(number_text(c@, 10)).len() >= 1,
        csv_amount(unquoted(ascii(number_text(c@, 10)))) == Some(c),
        forall|i: int|
            0 <= i < ascii(number_text(c@, 10)).len() ==> 0x30 <= #[trigger] ascii(number_text(c@, 10))[i] <= 0x39,
        is_ascii_chars(number_text(c@, 10)),
{
    let f = ascii(number_text(c@, 10));
    lemma_decimal_text(c@);
    assert(0x30 <= f[0] <= 0x39);
    assert(unquoted(f) == f);
    assert(!is_hex_literal(f)) by {
        if f.len() >= 2 {
            assert(0x30 <= f[1] <= 0x39);
        }
    }
    U256::lemma_limbs(c);
    U256::lemma_from_nat(c@);
    U256::lemma_view_injective(c, U256::from_nat(c@));
}

/// An edge as a line of bytes: the three addresses and the capacity as they are
/// written, with a comma between any two.
pub open spec fn line_bytes(e: Edge) -> Seq<u8> {
    ascii(address_text(e.from)) + seq![0x2cu8] + ascii(address_text(e.to)) + seq![0x2cu8] + ascii(
        address_text(e.token),
    ) + seq![0x2cu8] + ascii(number_text(e.capacity@, 10))
}

/// The line of an edge is read as the edge, and has no line feed in it and no
/// carriage return at its end.
proof fn lemma_line_read(e: Edge)
    ensures
        edge_of_line(line_bytes(e)) == Ok::<Edge, CsvError>(e),
        line_bytes(e).len() >= 1,
        forall|i: int| 0 <= i < line_bytes(e).len() ==> (#[trigger] line_bytes(e)[i]) != 0x0a,
        line_bytes(e)[line_bytes(e).len() - 1] != 0x0d,
{
    let a1 = ascii(address_text(e.from));
    let a2 = ascii(address_text(e.to));
    let a3 = ascii(address_text(e.token));
    let d = ascii(number_text(e.capacity@, 10));
    let comma = seq![0x2cu8];
    let line = line_bytes(e);
    lemma_address_field(e.from);
    lemma_address_field(e.to);
    lemma_address_field(e.token);
    lemma_amount_field(e.capacity);
    let r1 = a2 + comma + a3 + comma + d;
    let r2 = a3 + comma + d;
    assert(line =~= a1 + comma + r1);
    assert(r1 =~= a2 + comma + r2);
    assert(r2 =~= a3 + comma + d);
    assert forall|k: int| 0 <= k < 42 implies line[k] != 0x2c by {
        assert(line[k] == a1[k]);
    }
    lemma_index_of_byte(line, 0x2c, 42);
    assert(line.skip(43) =~= r1);
    assert(line.take(42) =~= a1);
    assert forall|k: int| 0 <= k < 42 implies r1[k] != 0x2c by {
        assert(r1[k] == a2[k]);
    }
    lemma_index_of_byte(r1, 0x2c, 42);
    assert(r1.skip(43) =~= r2);
    assert(r1.take(42) =~= a2);
    assert forall|k: int| 0 <= k < 42 implies r2[k] != 0x2c by {
        assert(r2[k] == a3[k]);
    }
    lemma_index_of_byte(r2, 0x2c, 42);
    assert(r2.skip(43) =~= d);
    assert(r2.take(42) =~= a3);
    assert forall|k: int| 0 <= k < d.len() implies d[k] != 0x2c by {
        assert(0x30 <= d[k] <= 0x39);
    }
    lemma_index_of_byte(d, 0x2c, d.len() as int);
    assert forall|i: int| 0 <= i < line.len() implies (#[trigger] line[i]) != 0x0a by {
        if i < 42 {
            assert(line[i] == a1[i]);
        } else if i == 42 {
        } else if i < 85 {
            assert(line[i] == a2[i - 43]);
        } else if i == 85 {
        } else if i < 128 {
            assert(line[i] == a3[i - 86]);
        } else if i == 128 {
        } else {
            assert(line[i] == d[i - 129]);
            assert(0x30 <= d[i - 129] <= 0x39);
        }
    }
    assert(line[line.len() - 1] == d[d.len() - 1]);
    assert(0x30 <= d[d.len() - 1] <= 0x39);
}

/// A line and a line feed before a text are read as the edge of the line and what
/// the text is read as.
proof fn lemma_line_before(e: Edge, rest: Seq<u8>, read: Seq<Edge>)
    ensures
        csv_from(line_bytes(e) + seq![0x0au8] + rest, read) == csv_from(rest, read.push(e)),
{
    let line = line_bytes(e);
    let data = line + seq![0x0au8] + rest;
    lemma_line_read(e);
    assert forall|k: int| 0 <= k < line.len() implies data[k] != 0x0a by {
        assert(data[k] == line[k]);
    }
    lemma_index_of_byte(data, 0x0a, line.len() as int);
    assert(data.take(line.len() as int) =~= line);
    assert(without_return(line) == line);
    assert(data.skip((line.len() + 1) as int) =~= rest);
}

/// Edges as text are the line of the first edge before the text of the others.
proof fn lemma_csv_text_front(edges: Seq<Edge>)
    requires
        edges.len() >= 1,
    ensures
        csv_text(edges) == csv_line(edges[0]) + csv_text(edges.skip(1)),
    decreases edges.len(),
{
    if edges.len() == 1 {
        assert(edges.drop_last() =~= Seq::<Edge>::empty());
        assert(edges.skip(1) =~= Seq::<Edge>::empty());
        assert(csv_text(edges) =~= csv_line(edges[0]) + csv_text(edges.skip(1)));
    } else {
        lemma_csv_text_front(edges.drop_last());
        assert(edges.drop_last().skip(1) =~= edges.skip(1).drop_last());
        assert(edges.skip(1).last() == edges.last());
        assert(csv_text(edges) =~= csv_line(edges[0]) + csv_text(edges.skip(1)));
    }
}

/// The line of an edge as text is its line of bytes and a line feed, in ASCII.
proof fn lemma_csv_line_bytes(e: Edge)
    ensures
        ascii(csv_line(e)) == line_bytes(e) + seq![0x0au8],
        is_ascii_chars(csv_line(e)),
{
    reveal_strlit(",");
    reveal_strlit("\n");
    let a1 = address_text(e.from);
    let a2 = address_text(e.to);
    let a3 = address_text(e.token);
    let d = number_text(e.capacity@, 10);
    assert(ascii(","@) =~= seq![0x2cu8]);
    assert(ascii("\n"@) =~= seq![0x0au8]);
    assert(ascii(csv_line(e)) =~= line_bytes(e) + seq![0x0au8]);
    lemma_address_field(e.from);
    lemma_address_field(e.to);
    lemma_address_field(e.token);
    lemma_amount_field(e.capacity);
    let line = csv_line(e);
    assert forall|i: int| 0 <= i < line.len() implies '\0' <= #[trigger] line[i] <= '\u{7f}' by {
        if i < 42 {
            assert(line[i] == a1[i]);
        } else if i == 42 {
        } else if i < 85 {
            assert(line[i] == a2[i - 43]);
        } else if i == 85 {
        } else if i < 128 {
            assert(line[i] == a3[i - 86]);
        } else if i == 128 {
        } else if i < 129 + d.len() {
            assert(line[i] == d[i - 129]);
        } else {
        }
    }
}

/// Edges as text are ASCII.
proof fn lemma_csv_text_ascii(edges: Seq<Edge>)
    ensures
        is_ascii_chars(csv_text(edges)),
    decreases edges.len(),
{
    if edges.len() > 0 {
        lemma_csv_text_ascii(edges.drop_last());
        lemma_csv_line_bytes(edges.last());
        let front = csv_text(edges.drop_last());
        let line = csv_line(edges.last());
        let all = csv_text(edges);
        assert forall|i: int| 0 <= i < all.len() implies '\0' <= #[trigger] all[i] <= '\u{7f}' by {
            if i < front.len() {
                assert(all[i] == front[i]);
            } else {
                assert(all[i] == line[i - front.len()]);
            }
        }
    }
}

/// No text is read as no edge.
proof fn lemma_empty_text_read(read: Seq<Edge>)
    ensures
        csv_from(Seq::<u8>::empty(), read) == Ok::<Seq<Edge>, CsvError>(read),
{
    let data = Seq::<u8>::empty();
    assert(index_of_byte(data, 0x0a) == 0);
    assert(data.take(0) =~= data);
    assert(without_return(data) == data);
}

/// The bytes of edges as text are the line of the first edge, a line feed, and the
/// bytes of the others as text.
proof fn lemma_text_bytes_front(edges: Seq<Edge>)
    requires
        edges.len() >= 1,
    ensures
        ascii(csv_text(edges)) == line_bytes(edges[0]) + seq![0x0au8] + ascii(
            csv_text(edges.skip(1)),
        ),
{
    lemma_csv_text_front(edges);
    lemma_csv_line_bytes(edges[0]);
    lemma_ascii_joined(csv_line(edges[0]), csv_text(edges.skip(1)));
}

/// Edges as text are read as the edges, behind those read before.
proof fn lemma_text_read(edges: Seq<Edge>, read: Seq<Edge>)
    ensures
        csv_from(ascii(csv_text(edges)), read) == Ok::<Seq<Edge>, CsvError>(read + edges),
    decreases edges.len(),
{
    if edges.len() == 0 {
        assert(ascii(csv_text(edges)) =~= Seq::<u8>::empty());
        lemma_empty_text_read(read);
        assert(read + edges =~= read);
    } else {
        let e = edges[0];
        let rest = edges.skip(1);
        lemma_text_bytes_front(edges);
        lemma_line_before(e, ascii(csv_text(rest)), read);
        lemma_text_read(rest, read.push(e));
        assert(read.push(e) + rest =~= read + edges);
    }
}

/// Reading the text that edges were written as gives the edges, in their order.
pub proof fn lemma_written_text_is_read(edges: Seq<Edge>)
    ensures
        csv_edges(encode_utf8(csv_text(edges))) == Ok::<Seq<Edge>, CsvError>(edges),
{
    lemma_text_read(edges, Seq::empty());
    lemma_csv_text_ascii(edges);
    vstd::utf8::is_ascii_chars_encode_utf8(csv_text(edges));
    assert(encode_utf8(csv_text(edges)) =~= ascii(csv_text(edges)));
    assert(Seq::<Edge>::empty() + edges =~= edges);
}

/// The text that edges were written as is written again character for character
/// from the edges that are read from it.
pub proof fn lemma_text_written_again(edges: Seq<Edge>)
    ensures
        csv_edges(encode_utf8(csv_text(edges))) is Ok,
        csv_text(csv_edges(encode_utf8(csv_text(edges)))->Ok_0) == csv_text(edges),
{
    lemma_written_text_is_read(edges);
}

} // verus!
