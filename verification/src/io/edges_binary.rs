use vstd::prelude::*;
use crate::io::safes_binary::{address_index_at, addresses_from, read_address_index};
use crate::io::{
    address_at, address_ref, read_address, read_u256, read_u32, u256_at, u32_at, u8_at, ImportError,
};
use crate::types::address::{address_limit, lemma_pow16_40, Address};
use crate::types::address_map::AddressMap;
use crate::types::edge::{Edge, EdgeDB};
use crate::types::u256::{
    be_value, lemma_be_value_bound, lemma_pow16_64, lemma_pow16_monotonic, modulus, pow16, U256,
};

verus! {

/// The edge written at a place, with the place behind it: the places of its
/// sender, its receiver and its token in the list of addresses, and its capacity.
pub open spec fn edge_at(data: Seq<u8>, addresses: Seq<Address>, pos: int) -> Result<
    (Edge, int),
    ImportError,
> {
    match address_ref(data, addresses, pos) {
        Err(e) => Err(e),
        Ok(from) => match address_ref(data, addresses, pos + 4) {
            Err(e) => Err(e),
            Ok(to) => match address_ref(data, addresses, pos + 8) {
                Err(e) => Err(e),
                Ok(token) => match u256_at(data, pos + 12) {
                    Err(e) => Err(e),
                    Ok((capacity, end)) => Ok((Edge { from, to, token, capacity }, end)),
                },
            },
        },
    }
}

/// The edges read so far and the `n` edges written from a place on, with the place
/// behind them.
pub open spec fn edges_from(
    data: Seq<u8>,
    addresses: Seq<Address>,
    pos: int,
    n: nat,
    read: Seq<Edge>,
) -> Result<(Seq<Edge>, int), ImportError>
    decreases n,
{
    if n == 0 {
        Ok((read, pos))
    } else {
        match edge_at(data, addresses, pos) {
            Err(e) => Err(e),
            Ok((edge, end)) => edges_from(data, addresses, end, (n - 1) as nat, read.push(edge)),
        }
    }
}

/// The edges that a file of edges holds: the list of addresses, then the number of
/// edges and the edges. What follows the edges is not read.
pub open spec fn edges_in(data: Seq<u8>) -> Result<Seq<Edge>, ImportError> {
    match address_index_at(data, 0) {
        Err(e) => Err(e),
        Ok((addresses, behind_addresses)) => match u32_at(data, behind_addresses) {
            None => Err(ImportError::UnexpectedEof),
            Some(n) => match edges_from(data, addresses, behind_addresses + 4, n as nat, Seq::empty()) {
                Err(e) => Err(e),
                Ok((edges, end)) => Ok(edges),
            },
        },
    }
}

/// Reads a file of edges.
pub fn read_edges_binary(data: &[u8]) -> (r: Result<EdgeDB, ImportError>)
    ensures
        match edges_in(data@) {
            Err(e) => r == Err::<EdgeDB, ImportError>(e),
            Ok(edges) => r is Ok && r->Ok_0.wf() && r->Ok_0@ == edges,
        },
{
    let mut pos: usize = 0;
    let address_index = match read_address_index(data, &mut pos) {
        Ok(index) => index,
        Err(e) => {
            return Err(e);
        },
    };
    let ghost start = pos as int;
    let count = match read_u32(data, &mut pos) {
        Ok(n) => n,
        Err(e) => {
            return Err(e);
        },
    };
    let mut edges: Vec<Edge> = Vec::new();
    let mut i: u32 = 0;
    while i < count
        invariant
            address_index.wf(),
            i <= count,
            address_index_at(data@, 0) == Ok::<(Seq<Address>, int), ImportError>(
                (address_index@, start),
            ),
            u32_at(data@, start) == Some(count),
            edges_from(data@, address_index@, start + 4, count as nat, Seq::empty()) == edges_from(
                data@,
                address_index@,
                pos as int,
                (count - i) as nat,
                edges@,
            ),
        decreases count - i,
    {
        let from = match read_address(data, &mut pos, &address_index) {
            Ok(a) => a,
            Err(e) => {
                return Err(e);
            },
        };
        let to = match read_address(data, &mut pos, &address_index) {
            Ok(a) => a,
            Err(e) => {
                return Err(e);
            },
        };
        let token = match read_address(data, &mut pos, &address_index) {
            Ok(a) => a,
            Err(e) => {
                return Err(e);
            },
        };
        let capacity = match read_u256(data, &mut pos) {
            Ok(c) => c,
            Err(e) => {
                return Err(e);
            },
        };
        edges.push(Edge { from, to, token, capacity });
        i += 1;
    }
    Ok(EdgeDB::new(edges))
}

/// The four bytes of a number, the first weighing most.
pub open spec fn u32_bytes(v: u32) -> Seq<u8> {
    seq![
        (v / 0x100_0000) as u8,
        ((v / 0x1_0000) % 0x100) as u8,
        ((v / 0x100) % 0x100) as u8,
        (v % 0x100) as u8,
    ]
}

/// The `k` lowest bytes of a number, the first weighing most.
pub open spec fn be_bytes(n: nat, k: nat) -> Seq<u8>
    decreases k,
{
    if k == 0 {
        Seq::empty()
    } else {
        be_bytes(n / 256, (k - 1) as nat).push((n % 256) as u8)
    }
}

/// The bytes of a number, the last weighing most, none for zero.
pub open spec fn le_bytes(n: nat) -> Seq<u8>
    decreases n,
{
    if n == 0 {
        Seq::empty()
    } else {
        seq![(n % 256) as u8] + le_bytes(n / 256)
    }
}

/// How many bytes a number takes, none for zero.
pub open spec fn byte_count(n: nat) -> nat
    decreases n,
{
    if n == 0 {
        0
    } else {
        1 + byte_count(n / 256)
    }
}

/// An amount as it is written: the number of its bytes, then the bytes without
/// zeros before them, the first weighing most.
pub open spec fn u256_bytes(v: U256) -> Seq<u8> {
    seq![byte_count(v@) as u8] + be_bytes(v@, byte_count(v@))
}

/// The `k` lowest bytes of a number are `k` bytes, and stand for the number where it
/// is below 256 to the `k`.
pub proof fn lemma_be_bytes(n: nat, k: nat)
    ensures
        be_bytes(n, k).len() == k,
        n < pow16(2 * k) ==> be_value(be_bytes(n, k)) == n,
    decreases k,
{
    if k > 0 {
        lemma_be_bytes(n / 256, (k - 1) as nat);
        let rest = be_bytes(n / 256, (k - 1) as nat);
        let all = rest.push((n % 256) as u8);
        assert(all.drop_last() =~= rest);
        assert(pow16(2 * k) == 16 * pow16((2 * k - 1) as nat));
        assert(pow16((2 * k - 1) as nat) == 16 * pow16((2 * (k - 1)) as nat));
    }
}

/// A number is below 256 to the number of its bytes, and takes no more than `k`
/// bytes where it is below 256 to the `k`.
pub proof fn lemma_byte_count(n: nat, k: nat)
    ensures
        n < pow16(2 * byte_count(n)),
        n < pow16(2 * k) ==> byte_count(n) <= k,
        le_bytes(n).len() == byte_count(n),
    decreases n,
{
    if n > 0 {
        lemma_byte_count(n / 256, (k - 1) as nat);
        let c = byte_count(n / 256);
        assert(pow16(2 * (c + 1)) == 16 * pow16((2 * c + 1) as nat));
        assert(pow16((2 * c + 1) as nat) == 16 * pow16(2 * c));
        if k > 0 {
            assert(pow16(2 * k) == 16 * pow16((2 * k - 1) as nat));
            assert(pow16((2 * k - 1) as nat) == 16 * pow16((2 * (k - 1)) as nat));
        }
    }
}

/// The bytes of a number with the first weighing most are its bytes with the last
/// weighing most, turned round.
pub proof fn lemma_bytes_turned(n: nat, i: int)
    requires
        0 <= i < byte_count(n),
    ensures
        be_bytes(n, byte_count(n))[i] == le_bytes(n)[byte_count(n) - 1 - i],
    decreases n,
{
    lemma_byte_count(n, 0);
    lemma_be_bytes(n, byte_count(n));
    if n > 0 {
        let c = byte_count(n / 256);
        lemma_byte_count(n / 256, 0);
        lemma_be_bytes(n / 256, c);
        if i < c {
            lemma_bytes_turned(n / 256, i);
        }
    }
}

/// Two runs of as many bytes that stand for the same number are the same.
pub proof fn lemma_be_value_injective(a: Seq<u8>, b: Seq<u8>)
    requires
        a.len() == b.len(),
        be_value(a) == be_value(b),
    ensures
        a == b,
    decreases a.len(),
{
    if a.len() > 0 {
        lemma_be_value_injective(a.drop_last(), b.drop_last());
        assert(a =~= a.drop_last().push(a.last()));
        assert(b =~= b.drop_last().push(b.last()));
    } else {
        assert(a =~= b);
    }
}

/// Writes a number of four bytes.
fn put_u32(out: &mut Vec<u8>, v: u32)
    ensures
        final(out)@ == old(out)@ + u32_bytes(v),
{
    out.push((v / 0x100_0000) as u8);
    out.push(((v / 0x1_0000) % 0x100) as u8);
    out.push(((v / 0x100) % 0x100) as u8);
    out.push((v % 0x100) as u8);
    assert(out@ =~= old(out)@ + u32_bytes(v));
}

/// Writes an address.
fn put_address(out: &mut Vec<u8>, a: Address)
    ensures
        final(out)@ == old(out)@ + be_bytes(a@, 20),
{
    let bytes = a.to_bytes();
    let ghost start = out@;
    proof {
        Address::lemma_bound(a);
        lemma_pow16_40();
        lemma_be_bytes(a@, 20);
        lemma_be_value_injective(bytes@, be_bytes(a@, 20));
    }
    let mut i: usize = 0;
    while i < 20
        invariant
            i <= 20,
            bytes@.len() == 20,
            out@ == start + bytes@.take(i as int),
        decreases 20 - i,
    {
        out.push(bytes[i]);
        assert(out@ =~= start + bytes@.take(i + 1));
        i += 1;
    }
    assert(bytes@.take(20) =~= bytes@);
}

/// Writes an amount: the number of its bytes, then the bytes.
fn put_u256(out: &mut Vec<u8>, v: U256)
    ensures
        final(out)@ == old(out)@ + u256_bytes(v),
{
    let ghost start = out@;
    let mut low_first: Vec<u8> = Vec::new();
    let mut cur = v;
    while !cur.is_zero()
        invariant
            low_first@ + le_bytes(cur@) == le_bytes(v@),
        decreases cur@,
    {
        let (q, r) = cur.div_rem_small(256);
        let ghost before = low_first@;
        low_first.push(r as u8);
        proof {
            assert(low_first@ + le_bytes(q@) =~= before + le_bytes(cur@));
            assert(q@ < cur@) by (nonlinear_arith)
                requires
                    q@ == cur@ / 256,
                    cur@ > 0,
            ;
        }
        cur = q;
    }
    proof {
        assert(low_first@ =~= le_bytes(v@));
        lemma_byte_count(v@, 32);
        U256::lemma_limbs(v);
        lemma_pow16_64();
        lemma_be_bytes(v@, byte_count(v@));
    }
    let n = low_first.len();
    out.push(n as u8);
    let mut j: usize = 0;
    while j < n
        invariant
            j <= n,
            n == byte_count(v@),
            n <= 32,
            low_first@.len() == n,
            low_first@ == le_bytes(v@),
            be_bytes(v@, byte_count(v@)).len() == n,
            out@ == start + seq![n as u8] + be_bytes(v@, byte_count(v@)).take(j as int),
        decreases n - j,
    {
        proof {
            lemma_bytes_turned(v@, j as int);
        }
        out.push(low_first[n - 1 - j]);
        assert(out@ =~= start + seq![n as u8] + be_bytes(v@, byte_count(v@)).take(j + 1));
        j += 1;
    }
    proof {
        assert(be_bytes(v@, byte_count(v@)).take(n as int) =~= be_bytes(v@, byte_count(v@)));
        assert(out@ =~= start + u256_bytes(v));
    }
}

/// The place of an address in a list of addresses, as it is written.
pub open spec fn place_in(addresses: Seq<Address>, a: Address) -> u32 {
    addresses.index_of(a) as u32
}

/// An edge as it is written: the places of its sender, its receiver and its token
/// in the list of addresses, and its capacity.
pub open spec fn edge_bytes(addresses: Seq<Address>, e: Edge) -> Seq<u8> {
    u32_bytes(place_in(addresses, e.from)) + u32_bytes(place_in(addresses, e.to)) + u32_bytes(
        place_in(addresses, e.token),
    ) + u256_bytes(e.capacity)
}

/// Addresses as they are written, one after the other.
pub open spec fn addresses_bytes(addresses: Seq<Address>) -> Seq<u8>
    decreases addresses.len(),
{
    if addresses.len() == 0 {
        Seq::empty()
    } else {
        addresses_bytes(addresses.drop_last()) + be_bytes(addresses.last()@, 20)
    }
}

/// Edges as they are written, one after the other.
pub open spec fn edges_bytes(addresses: Seq<Address>, edges: Seq<Edge>) -> Seq<u8>
    decreases edges.len(),
{
    if edges.len() == 0 {
        Seq::empty()
    } else {
        edges_bytes(addresses, edges.drop_last()) + edge_bytes(addresses, edges.last())
    }
}

/// A file of edges: the number of addresses, the addresses, the number of edges,
/// the edges.
pub open spec fn file_bytes(addresses: Seq<Address>, edges: Seq<Edge>) -> Seq<u8> {
    u32_bytes(addresses.len() as u32) + addresses_bytes(addresses) + u32_bytes(
        edges.len() as u32,
    ) + edges_bytes(addresses, edges)
}

/// Whether an address is the sender, the receiver or the token of one of the edges.
pub open spec fn mentions(edges: Seq<Edge>, a: Address) -> bool {
    exists|k: int|
        0 <= k < edges.len() && ((#[trigger] edges[k]).from == a || edges[k].to == a
            || edges[k].token == a)
}

/// Whether the list holds the addresses that the edges mention, each once, in
/// ascending order.
pub open spec fn is_address_index(addresses: Seq<Address>, edges: Seq<Edge>) -> bool {
    &&& forall|i: int, j: int|
        0 <= i < j < addresses.len() ==> (#[trigger] addresses[i])@ < (#[trigger] addresses[j])@
    &&& forall|a: Address| #[trigger] addresses.contains(a) <==> mentions(edges, a)
}

/// Writes a file of edges: the addresses that the edges mention in ascending order,
/// then the edges in their order. Gives nothing where there are too many addresses
/// or edges for their number to be written in four bytes.
pub fn write_edges_binary(edges: &EdgeDB) -> (r: Option<Vec<u8>>)
    ensures
        r is Some ==> edges@.len() <= u32::MAX && exists|addresses: Seq<Address>|
            #[trigger] is_address_index(addresses, edges@) && addresses.len() <= u32::MAX && r->0@
                == file_bytes(addresses, edges@),
        r is None ==> edges@.len() > u32::MAX || exists|addresses: Seq<Address>|
            #[trigger] is_address_index(addresses, edges@) && addresses.len() > u32::MAX,
{
    let list = edges.edges();
    let mut index: AddressMap<u8> = AddressMap::new();
    let mut k: usize = 0;
    while k < list.len()
        invariant
            k <= list@.len(),
            index.wf(),
            forall|a: Address| #[trigger] index@.contains_key(a) <==> mentions(list@.take(k as int), a),
        decreases list@.len() - k,
    {
        let e = list[k];
        let ghost before = index@;
        let _ = index.insert(e.from, 0);
        let _ = index.insert(e.to, 0);
        let _ = index.insert(e.token, 0);
        proof {
            let now = list@.take(k + 1);
            let was = list@.take(k as int);
            assert forall|a: Address| #[trigger] index@.contains_key(a) <==> mentions(now, a) by {
                if mentions(now, a) {
                    let i = choose|i: int|
                        0 <= i < now.len() && ((#[trigger] now[i]).from == a || now[i].to == a
                            || now[i].token == a);
                    if i < k {
                        assert(was[i] == now[i]);
                        assert(mentions(was, a));
                    }
                }
                if index@.contains_key(a) {
                    if before.contains_key(a) {
                        let i = choose|i: int|
                            0 <= i < was.len() && ((#[trigger] was[i]).from == a || was[i].to == a
                                || was[i].token == a);
                        assert(now[i] == was[i]);
                    } else {
                        assert(now[k as int] == e);
                    }
                }
            }
        }
        k += 1;
    }
    proof {
        assert(list@.take(k as int) =~= list@);
        assert forall|a: Address| #[trigger] index.keys().contains(a) <==> mentions(edges@, a) by {
            assert(index@.contains_key(a) == index.keys().contains(a));
        }
        assert forall|i: int, j: int| 0 <= i < j < index.keys().len() implies (
        #[trigger] index.keys()[i])@ < (#[trigger] index.keys()[j])@ by {}
        assert(is_address_index(index.keys(), edges@));
    }
    if index.len() > u32::MAX as usize || list.len() > u32::MAX as usize {
        return None;
    }
    let ghost addresses = index.keys();
    let mut out: Vec<u8> = Vec::new();
    put_u32(&mut out, index.len() as u32);
    let ghost head = out@;
    let mut i: usize = 0;
    assert(out@ =~= head + addresses_bytes(addresses.take(0)));
    while i < index.len()
        invariant
            i <= addresses.len(),
            index.wf(),
            addresses == index.keys(),
            out@ == head + addresses_bytes(addresses.take(i as int)),
        decreases addresses.len() - i,
    {
        put_address(&mut out, index.key_at(i));
        proof {
            assert(addresses.take(i + 1).drop_last() =~= addresses.take(i as int));
            assert(out@ =~= head + addresses_bytes(addresses.take(i + 1)));
        }
        i += 1;
    }
    put_u32(&mut out, list.len() as u32);
    let ghost head = out@;
    proof {
        assert(addresses.take(i as int) =~= addresses);
    }
    let mut k: usize = 0;
    assert(out@ =~= head + edges_bytes(addresses, list@.take(0)));
    while k < list.len()
        invariant
            k <= list@.len(),
            index.wf(),
            addresses == index.keys(),
            addresses.len() <= u32::MAX,
            forall|a: Address| #[trigger] index@.contains_key(a) <==> mentions(list@, a),
            out@ == head + edges_bytes(addresses, list@.take(k as int)),
        decreases list@.len() - k,
    {
        let e = list[k];
        proof {
            assert(mentions(list@, e.from) && mentions(list@, e.to) && mentions(list@, e.token));
        }
        let from = match index.find(e.from) {
            Some(p) => p,
            None => 0,
        };
        let to = match index.find(e.to) {
            Some(p) => p,
            None => 0,
        };
        let token = match index.find(e.token) {
            Some(p) => p,
            None => 0,
        };
        proof {
            index.lemma_entry(from as int);
            index.lemma_entry(to as int);
            index.lemma_entry(token as int);
        }
        let ghost before = out@;
        put_u32(&mut out, from as u32);
        put_u32(&mut out, to as u32);
        put_u32(&mut out, token as u32);
        put_u256(&mut out, e.capacity);
        proof {
            assert(list@.take(k + 1).drop_last() =~= list@.take(k as int));
            assert(out@ =~= before + edge_bytes(addresses, e));
            assert(out@ =~= head + edges_bytes(addresses, list@.take(k + 1)));
        }
        k += 1;
    }
    proof {
        assert(list@.take(k as int) =~= list@);
        assert(out@ =~= file_bytes(addresses, edges@));
    }
    Some(out)
}

/// Whether the data hold the piece at the place.
pub open spec fn has_at(data: Seq<u8>, pos: int, piece: Seq<u8>) -> bool {
    0 <= pos && pos + piece.len() <= data.len() && data.subrange(pos, pos + piece.len()) == piece
}

/// What holds a piece holds every part of it.
proof fn lemma_part(data: Seq<u8>, pos: int, piece: Seq<u8>, off: int, part: Seq<u8>)
    requires
        has_at(data, pos, piece),
        has_at(piece, off, part),
    ensures
        has_at(data, pos + off, part),
{
    assert(data.subrange(pos + off, pos + off + part.len()) =~= piece.subrange(
        off,
        off + part.len(),
    ));
}

/// Two pieces put together hold the first at the front and the second behind it.
proof fn lemma_joined(a: Seq<u8>, b: Seq<u8>)
    ensures
        has_at(a + b, 0, a),
        has_at(a + b, a.len() as int, b),
{
    assert((a + b).subrange(0, a.len() as int) =~= a);
    assert((a + b).subrange(a.len() as int, (a.len() + b.len()) as int) =~= b);
}

/// A number that is written at a place is read there.
proof fn lemma_u32_read(data: Seq<u8>, pos: int, v: u32)
    requires
        has_at(data, pos, u32_bytes(v)),
    ensures
        u32_at(data, pos) == Some(v),
{
    let piece = data.subrange(pos, pos + 4);
    assert(piece[0] == data[pos] && piece[1] == data[pos + 1] && piece[2] == data[pos + 2]
        && piece[3] == data[pos + 3]);
}

/// An address that is written at a place is read there.
proof fn lemma_address_read(data: Seq<u8>, pos: int, a: Address)
    requires
        has_at(data, pos, be_bytes(a@, 20)),
    ensures
        address_at(data, pos) == Some(a),
{
    Address::lemma_bound(a);
    lemma_pow16_40();
    lemma_be_bytes(a@, 20);
    Address::lemma_from_nat(a@);
    Address::lemma_view_injective(a, Address::from_nat(a@));
}

/// An amount that is written at a place is read there.
proof fn lemma_u256_read(data: Seq<u8>, pos: int, v: U256)
    requires
        has_at(data, pos, u256_bytes(v)),
    ensures
        u256_at(data, pos) == Ok::<(U256, int), ImportError>((v, pos + 1 + byte_count(v@))),
        u256_bytes(v).len() == 1 + byte_count(v@),
{
    let n = byte_count(v@);
    U256::lemma_limbs(v);
    lemma_pow16_64();
    lemma_byte_count(v@, 32);
    lemma_be_bytes(v@, n);
    let piece = u256_bytes(v);
    assert(piece[0] == n as u8);
    assert(data[pos] == data.subrange(pos, pos + piece.len())[0]);
    assert(data.subrange(pos + 1, pos + 1 + n) =~= piece.subrange(1, (1 + n) as int));
    assert(piece.subrange(1, (1 + n) as int) =~= be_bytes(v@, n));
    U256::lemma_from_nat(v@);
    U256::lemma_view_injective(v, U256::from_nat(v@));
}

/// The place of an address that is written at a place names the address.
proof fn lemma_place_read(data: Seq<u8>, addresses: Seq<Address>, pos: int, a: Address)
    requires
        addresses.len() <= u32::MAX,
        addresses.contains(a),
        has_at(data, pos, u32_bytes(place_in(addresses, a))),
    ensures
        address_ref(data, addresses, pos) == Ok::<Address, ImportError>(a),
{
    lemma_u32_read(data, pos, place_in(addresses, a));
    let i = addresses.index_of(a);
    assert(0 <= i < addresses.len() && addresses[i] == a);
}

/// An edge that is written at a place is read there.
proof fn lemma_edge_read(data: Seq<u8>, addresses: Seq<Address>, pos: int, e: Edge)
    requires
        addresses.len() <= u32::MAX,
        addresses.contains(e.from),
        addresses.contains(e.to),
        addresses.contains(e.token),
        has_at(data, pos, edge_bytes(addresses, e)),
    ensures
        edge_at(data, addresses, pos) == Ok::<(Edge, int), ImportError>(
            (e, pos + edge_bytes(addresses, e).len()),
        ),
{
    let a = u32_bytes(place_in(addresses, e.from));
    let b = u32_bytes(place_in(addresses, e.to));
    let c = u32_bytes(place_in(addresses, e.token));
    let d = u256_bytes(e.capacity);
    let piece = edge_bytes(addresses, e);
    assert(piece.subrange(0, 4) =~= a);
    assert(piece.subrange(4, 8) =~= b);
    assert(piece.subrange(8, 12) =~= c);
    assert(piece.subrange(12, (12 + d.len()) as int) =~= d);
    lemma_part(data, pos, piece, 0, a);
    lemma_part(data, pos, piece, 4, b);
    lemma_part(data, pos, piece, 8, c);
    lemma_part(data, pos, piece, 12, d);
    lemma_place_read(data, addresses, pos, e.from);
    lemma_place_read(data, addresses, pos + 4, e.to);
    lemma_place_read(data, addresses, pos + 8, e.token);
    lemma_u256_read(data, pos + 12, e.capacity);
}

/// Written addresses take twenty bytes each, and hold each address at its place.
proof fn lemma_address_piece(all: Seq<Address>, i: int)
    requires
        0 <= i < all.len(),
    ensures
        addresses_bytes(all).len() == 20 * all.len(),
        has_at(addresses_bytes(all), 20 * i, be_bytes(all[i]@, 20)),
    decreases all.len(),
{
    let init = all.drop_last();
    lemma_be_bytes(all.last()@, 20);
    if init.len() > 0 {
        lemma_address_piece(init, if i < init.len() { i } else { 0 });
    }
    lemma_joined(addresses_bytes(init), be_bytes(all.last()@, 20));
    if i < init.len() {
        assert(init[i] == all[i]);
        lemma_part(
            addresses_bytes(all),
            0,
            addresses_bytes(init),
            20 * i,
            be_bytes(all[i]@, 20),
        );
    }
}

/// The addresses that are written from a place on are read there.
proof fn lemma_addresses_read(data: Seq<u8>, pos: int, all: Seq<Address>, i: int)
    requires
        0 <= i <= all.len(),
        has_at(data, pos, addresses_bytes(all)),
    ensures
        addresses_from(data, pos + 20 * i, (all.len() - i) as nat, all.take(i)) == Ok::<
            (Seq<Address>, int),
            ImportError,
        >((all, pos + 20 * all.len())),
    decreases all.len() - i,
{
    if i == all.len() {
        assert(all.take(i) =~= all);
    } else {
        lemma_address_piece(all, i);
        lemma_part(data, pos, addresses_bytes(all), 20 * i, be_bytes(all[i]@, 20));
        lemma_address_read(data, pos + 20 * i, all[i]);
        lemma_addresses_read(data, pos, all, i + 1);
        assert(all.take(i).push(all[i]) =~= all.take(i + 1));
    }
}

/// Written edges hold each edge behind the edges before it.
proof fn lemma_edge_piece(addresses: Seq<Address>, all: Seq<Edge>, i: int)
    requires
        0 <= i < all.len(),
    ensures
        has_at(
            edges_bytes(addresses, all),
            edges_bytes(addresses, all.take(i)).len() as int,
            edge_bytes(addresses, all[i]),
        ),
        edges_bytes(addresses, all.take(i + 1)).len() == edges_bytes(addresses, all.take(i)).len()
            + edge_bytes(addresses, all[i]).len(),
    decreases all.len(),
{
    let init = all.drop_last();
    lemma_joined(edges_bytes(addresses, init), edge_bytes(addresses, all.last()));
    assert(all.take(i + 1).drop_last() =~= all.take(i));
    if i < init.len() {
        lemma_edge_piece(addresses, init, i);
        assert(init.take(i) =~= all.take(i));
        assert(init[i] == all[i]);
        lemma_part(
            edges_bytes(addresses, all),
            0,
            edges_bytes(addresses, init),
            edges_bytes(addresses, all.take(i)).len() as int,
            edge_bytes(addresses, all[i]),
        );
    } else {
        assert(all.take(i) =~= init);
    }
}

/// The edges that are written from a place on are read there.
proof fn lemma_edges_read(
    data: Seq<u8>,
    addresses: Seq<Address>,
    pos: int,
    all: Seq<Edge>,
    i: int,
)
    requires
        0 <= i <= all.len(),
        addresses.len() <= u32::MAX,
        forall|a: Address| mentions(all, a) ==> addresses.contains(a),
        has_at(data, pos, edges_bytes(addresses, all)),
    ensures
        edges_from(
            data,
            addresses,
            pos + edges_bytes(addresses, all.take(i)).len(),
            (all.len() - i) as nat,
            all.take(i),
        ) == Ok::<(Seq<Edge>, int), ImportError>(
            (all, pos + edges_bytes(addresses, all).len()),
        ),
    decreases all.len() - i,
{
    if i == all.len() {
        assert(all.take(i) =~= all);
    } else {
        let e = all[i];
        assert(mentions(all, e.from) && mentions(all, e.to) && mentions(all, e.token));
        lemma_edge_piece(addresses, all, i);
        let off = edges_bytes(addresses, all.take(i)).len() as int;
        lemma_part(data, pos, edges_bytes(addresses, all), off, edge_bytes(addresses, e));
        lemma_edge_read(data, addresses, pos + off, e);
        lemma_edges_read(data, addresses, pos, all, i + 1);
        assert(all.take(i).push(e) =~= all.take(i + 1));
    }
}

/// Four pieces put together hold each piece behind the pieces before it.
proof fn lemma_four_pieces(a: Seq<u8>, b: Seq<u8>, c: Seq<u8>, d: Seq<u8>)
    ensures
        has_at(a + b + c + d, 0, a),
        has_at(a + b + c + d, a.len() as int, b),
        has_at(a + b + c + d, (a.len() + b.len()) as int, c),
        has_at(a + b + c + d, (a.len() + b.len() + c.len()) as int, d),
{
    let data = a + b + c + d;
    assert(data.subrange(0, a.len() as int) =~= a);
    assert(data.subrange(a.len() as int, (a.len() + b.len()) as int) =~= b);
    assert(data.subrange((a.len() + b.len()) as int, (a.len() + b.len() + c.len()) as int) =~= c);
    assert(data.subrange(
        (a.len() + b.len() + c.len()) as int,
        (a.len() + b.len() + c.len() + d.len()) as int,
    ) =~= d);
}

/// The list of addresses that is written at the head of a file is read there.
proof fn lemma_address_index_read(data: Seq<u8>, addresses: Seq<Address>)
    requires
        addresses.len() <= u32::MAX,
        has_at(data, 0, u32_bytes(addresses.len() as u32)),
        has_at(data, 4, addresses_bytes(addresses)),
    ensures
        address_index_at(data, 0) == Ok::<(Seq<Address>, int), ImportError>(
            (addresses, (4 + 20 * addresses.len()) as int),
        ),
{
    lemma_u32_read(data, 0, addresses.len() as u32);
    lemma_addresses_read(data, 4, addresses, 0);
    assert(addresses.take(0) =~= Seq::<Address>::empty());
}

/// The edges that are written behind their number are read there.
proof fn lemma_counted_edges_read(
    data: Seq<u8>,
    addresses: Seq<Address>,
    pos: int,
    edges: Seq<Edge>,
)
    requires
        addresses.len() <= u32::MAX,
        edges.len() <= u32::MAX,
        forall|a: Address| mentions(edges, a) ==> addresses.contains(a),
        has_at(data, pos, u32_bytes(edges.len() as u32)),
        has_at(data, pos + 4, edges_bytes(addresses, edges)),
    ensures
        u32_at(data, pos) == Some(edges.len() as u32),
        edges_from(data, addresses, pos + 4, edges.len(), Seq::empty()) is Ok,
        (edges_from(data, addresses, pos + 4, edges.len(), Seq::empty())->Ok_0).0 == edges,
{
    lemma_u32_read(data, pos, edges.len() as u32);
    lemma_edges_read(data, addresses, pos + 4, edges, 0);
    assert(edges.take(0) =~= Seq::<Edge>::empty());
    assert(edges_bytes(addresses, edges.take(0)).len() == 0);
}

/// Reading a file of edges that was written gives the edges that were written, in
/// their order.
pub proof fn lemma_written_edges_are_read(addresses: Seq<Address>, edges: Seq<Edge>)
    requires
        is_address_index(addresses, edges),
        addresses.len() <= u32::MAX,
        edges.len() <= u32::MAX,
    ensures
        edges_in(file_bytes(addresses, edges)) == Ok::<Seq<Edge>, ImportError>(edges),
{
    let data = file_bytes(addresses, edges);
    let a = u32_bytes(addresses.len() as u32);
    let b = addresses_bytes(addresses);
    let c = u32_bytes(edges.len() as u32);
    let d = edges_bytes(addresses, edges);
    assert(b.len() == 20 * addresses.len()) by {
        if addresses.len() > 0 {
            lemma_address_piece(addresses, 0);
        }
    }
    assert(a.len() == 4 && c.len() == 4);
    lemma_four_pieces(a, b, c, d);
    lemma_address_index_read(data, addresses);
    let behind_addresses: int = (4 + 20 * addresses.len()) as int;
    lemma_counted_edges_read(data, addresses, behind_addresses, edges);
}

/// The edges determine the list of their addresses: two lists that hold the
/// addresses that the edges mention, each once, in ascending order are the same.
pub proof fn lemma_address_index_unique(first: Seq<Address>, second: Seq<Address>, edges: Seq<Edge>)
    requires
        is_address_index(first, edges),
        is_address_index(second, edges),
    ensures
        first == second,
{
    lemma_ascending_unique(first, second);
}

/// Two ascending lists of the same addresses are the same.
proof fn lemma_ascending_unique(first: Seq<Address>, second: Seq<Address>)
    requires
        forall|i: int, j: int|
            0 <= i < j < first.len() ==> (#[trigger] first[i])@ < (#[trigger] first[j])@,
        forall|i: int, j: int|
            0 <= i < j < second.len() ==> (#[trigger] second[i])@ < (#[trigger] second[j])@,
        forall|a: Address| first.contains(a) <==> second.contains(a),
    ensures
        first == second,
    decreases first.len(),
{
    if first.len() == 0 {
        if second.len() > 0 {
            assert(second.contains(second[0]));
        }
        assert(first =~= second);
    } else {
        let top = first.last();
        assert(first.contains(top));
        assert(second.contains(top));
        let at = second.index_of(top);
        // nothing in the second list is above the top of the first
        if at < second.len() - 1 {
            let above = second[second.len() - 1];
            assert(second.contains(above));
            assert(first.contains(above));
            let k = first.index_of(above);
            assert(second[at]@ < above@);
            if k < first.len() - 1 {
                assert(first[k]@ < first[first.len() - 1]@);
            }
        }
        let a = first.drop_last();
        let b = second.drop_last();
        assert forall|x: Address| a.contains(x) <==> b.contains(x) by {
            if a.contains(x) {
                let k = a.index_of(x);
                assert(first[k] == x);
                assert(first[k]@ < top@);
                assert(first.contains(x));
                let m = second.index_of(x);
                assert(m != second.len() - 1);
                assert(b[m] == x);
            }
            if b.contains(x) {
                let m = b.index_of(x);
                assert(second[m] == x);
                assert(second[m]@ < second[second.len() - 1]@);
                assert(second.contains(x));
                let k = first.index_of(x);
                assert(k != first.len() - 1);
                assert(a[k] == x);
            }
        }
        assert forall|i: int, j: int| 0 <= i < j < a.len() implies (#[trigger] a[i])@ < (
        #[trigger] a[j])@ by {
            assert(first[i]@ < first[j]@);
        }
        assert forall|i: int, j: int| 0 <= i < j < b.len() implies (#[trigger] b[i])@ < (
        #[trigger] b[j])@ by {
            assert(second[i]@ < second[j]@);
        }
        lemma_ascending_unique(a, b);
        assert(first =~= a.push(top));
        assert(second =~= b.push(top));
    }
}

/// A file of edges that was written is written again byte for byte from the edges
/// that are read from it.
pub proof fn lemma_reading_and_writing_again(
    addresses: Seq<Address>,
    again: Seq<Address>,
    edges: Seq<Edge>,
)
    requires
        is_address_index(addresses, edges),
        addresses.len() <= u32::MAX,
        edges.len() <= u32::MAX,
        is_address_index(again, edges_in(file_bytes(addresses, edges))->Ok_0),
    ensures
        edges_in(file_bytes(addresses, edges)) is Ok,
        file_bytes(again, edges_in(file_bytes(addresses, edges))->Ok_0) == file_bytes(
            addresses,
            edges,
        ),
{
    lemma_written_edges_are_read(addresses, edges);
    lemma_address_index_unique(addresses, again, edges);
}

} // verus!
