use vstd::prelude::*;

verus! {

/// The `n` low bytes of `v`, least significant first.
pub open spec fn le_bytes(v: nat, n: nat) -> Seq<u8>
    decreases n,
{
    if n == 0 {
        Seq::empty()
    } else {
        seq![(v % 256) as u8] + le_bytes(v / 256, (n - 1) as nat)
    }
}

/// Variable-length form of an integer under bincode's standard configuration.
pub open spec fn varint(v: u64) -> Seq<u8> {
    if v <= 250 {
        seq![v as u8]
    } else if v <= 0xffff {
        seq![251u8] + le_bytes(v as nat, 2)
    } else if v <= 0xffff_ffff {
        seq![252u8] + le_bytes(v as nat, 4)
    } else {
        seq![253u8] + le_bytes(v as nat, 8)
    }
}

/// A byte string as bincode's standard configuration writes it: its length, then its bytes.
pub open spec fn bytes_encoding(b: Seq<u8>) -> Seq<u8> {
    varint(b.len() as u64) + b
}

/// Whether `s` starts with `p`.
pub open spec fn starts_with(s: Seq<u8>, p: Seq<u8>) -> bool {
    p.len() <= s.len() && s.subrange(0, p.len() as int) == p
}

pub proof fn lemma_le_bytes_len(v: nat, n: nat)
    ensures
        le_bytes(v, n).len() == n,
    decreases n,
{
    if n > 0 {
        lemma_le_bytes_len(v / 256, (n - 1) as nat);
    }
}

pub proof fn lemma_bytes_encoding_len(b: Seq<u8>)
    ensures
        bytes_encoding(b).len() > b.len(),
{
    lemma_le_bytes_len(b.len(), 2);
    lemma_le_bytes_len(b.len(), 4);
    lemma_le_bytes_len(b.len(), 8);
}

/// Relies on bincode's `encode_to_vec` with `config::standard()` on a `Vec<u8>`: it writes the
/// length as a varint, then the bytes, and writing to a vector cannot fail.
#[verifier::external_body]
pub(crate) fn encode_bytes(b: &Vec<u8>) -> (r: Option<Vec<u8>>)
    ensures
        r is Some && r.unwrap()@ == bytes_encoding(b@),
{
    bincode::encode_to_vec(b, bincode::config::standard()).ok()
}

/// Relies on bincode's `encode_to_vec` with `config::standard()` on a `u64`: it writes the
/// varint form, and writing to a vector cannot fail.
#[verifier::external_body]
pub(crate) fn encode_u64(v: u64) -> (r: Option<Vec<u8>>)
    ensures
        r is Some && r.unwrap()@ == varint(v),
{
    bincode::encode_to_vec(v, bincode::config::standard()).ok()
}

/// Relies on bincode's `decode_from_slice` with `config::standard()` for a `Vec<u8>`, on the
/// bytes of `src` from `pos` on: where they start with the encoding of `b`, it gives back `b`
/// and the length of that encoding, and what it reports as read never exceeds those bytes.
/// bincode allocates the declared length before it reads the bytes, so the bytes must start
/// with a varint length that the bytes after it cover.
#[verifier::external_body]
fn decode_bytes_at(src: &Vec<u8>, pos: usize) -> (r: Option<(Vec<u8>, usize)>)
    requires
        pos <= src@.len(),
        exists|n: u64|
            #[trigger] starts_with(src@.skip(pos as int), varint(n)) && n + varint(n).len()
                <= src@.len() - pos,
    ensures
        forall|b: Seq<u8>|
            #[trigger] starts_with(src@.skip(pos as int), bytes_encoding(b)) ==> (r is Some
                && r.unwrap().0@ == b && r.unwrap().1 == bytes_encoding(b).len()),
        r is Some ==> r.unwrap().1 <= src@.len() - pos,
{
    bincode::decode_from_slice::<Vec<u8>, _>(&src[pos..], bincode::config::standard()).ok()
}

/// Relies on bincode's `decode_from_slice` with `config::standard()` for a `u64`, on the bytes
/// of `src` from `pos` on: where they start with the varint form of `v`, it gives back `v` and
/// the length of that form, and what it reports as read never exceeds those bytes.
#[verifier::external_body]
pub(crate) fn decode_u64_at(src: &Vec<u8>, pos: usize) -> (r: Option<(u64, usize)>)
    requires
        pos <= src@.len(),
    ensures
        forall|v: u64|
            #[trigger] starts_with(src@.skip(pos as int), varint(v)) ==> (r is Some && r.unwrap().0
                == v && r.unwrap().1 == varint(v).len()),
        r is Some ==> r.unwrap().1 <= src@.len() - pos,
{
    bincode::decode_from_slice::<u64, _>(&src[pos..], bincode::config::standard()).ok()
}

/// Decodes the byte string that starts at `pos`: where the bytes from `pos` on start with the
/// encoding of `b`, gives back `b` and the length of that encoding. A length prefix that is
/// not in its shortest form, or that claims more bytes than follow it, gives `None`.
pub(crate) fn read_bytes_at(src: &Vec<u8>, pos: usize) -> (r: Option<(Vec<u8>, usize)>)
    requires
        pos <= src@.len(),
    ensures
        forall|b: Seq<u8>|
            #[trigger] starts_with(src@.skip(pos as int), bytes_encoding(b)) ==> (r is Some
                && r.unwrap().0@ == b && r.unwrap().1 == bytes_encoding(b).len()),
        r is Some ==> r.unwrap().1 <= src@.len() - pos,
{
    let len = src.len();
    let (n, l) = match decode_u64_at(src, pos) {
        Some(d) => d,
        None => {
            proof {
                assert forall|b: Seq<u8>| #[trigger] starts_with(src@.skip(pos as int), bytes_encoding(b))
                    implies false by {
                    lemma_starts_concat(src@.skip(pos as int), varint(b.len() as u64), b);
                }
            }
            return None;
        },
    };
    let shortest = match encode_u64(n) {
        Some(e) => e,
        None => Vec::new(),
    };
    if l != shortest.len() || n > (len - pos - l) as u64 {
        proof {
            assert forall|b: Seq<u8>| #[trigger] starts_with(src@.skip(pos as int), bytes_encoding(b))
                implies false by {
                lemma_starts_concat(src@.skip(pos as int), varint(b.len() as u64), b);
                lemma_skip_len(src@, pos as int);
            }
        }
        return None;
    }
    let mut i: usize = 0;
    while i < l
        invariant
            len == src@.len(),
            pos + l <= len,
            l == shortest@.len(),
            shortest@ == varint(n),
            forall|v: u64| #[trigger] starts_with(src@.skip(pos as int), varint(v)) ==> v == n,
            i <= l,
            forall|x: int| 0 <= x < i ==> src@[pos + x] == #[trigger] shortest@[x],
        decreases l - i,
    {
        if src[pos + i] != shortest[i] {
            proof {
                assert forall|b: Seq<u8>| #[trigger] starts_with(src@.skip(pos as int), bytes_encoding(b))
                    implies false by {
                    lemma_starts_concat(src@.skip(pos as int), varint(b.len() as u64), b);
                    assert(b.len() as u64 == n);
                    assert(src@.skip(pos as int).subrange(0, l as int)[i as int] == shortest@[i as int]);
                }
            }
            return None;
        }
        i = i + 1;
    }
    proof {
        assert(src@.skip(pos as int).subrange(0, l as int) =~= varint(n));
        assert(starts_with(src@.skip(pos as int), varint(n)));
    }
    decode_bytes_at(src, pos)
}

proof fn lemma_skip_len(s: Seq<u8>, a: int)
    requires
        0 <= a <= s.len(),
    ensures
        s.skip(a).len() == s.len() - a,
{
}

/// Where `s` starts with `p + q`, it starts with `p`, and what follows `p` starts with `q`.
pub proof fn lemma_starts_concat(s: Seq<u8>, p: Seq<u8>, q: Seq<u8>)
    requires
        starts_with(s, p + q),
    ensures
        starts_with(s, p),
        starts_with(s.skip(p.len() as int), q),
{
    assert(s.subrange(0, p.len() as int) =~= (p + q).subrange(0, p.len() as int));
    assert((p + q).subrange(0, p.len() as int) =~= p);
    assert(s.skip(p.len() as int).subrange(0, q.len() as int) =~= (p + q).subrange(
        p.len() as int,
        (p.len() + q.len()) as int,
    ));
    assert((p + q).subrange(p.len() as int, (p.len() + q.len()) as int) =~= q);
}

pub proof fn lemma_skip_skip(s: Seq<u8>, a: int, b: int)
    requires
        0 <= a,
        0 <= b,
        a + b <= s.len(),
    ensures
        s.skip(a).skip(b) == s.skip(a + b),
{
    assert(s.skip(a).skip(b) =~= s.skip(a + b));
}

} // verus!
