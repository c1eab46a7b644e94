use vstd::prelude::*;
use crate::model::Checksum;
use crate::outside::{md5_digest, md5_of, sha1_digest, sha1_of, sha256_digest, sha256_of};
use crate::text::{own, string_of};

verus! {

/// The lowercase hex digit of `n < 16`.
pub open spec fn hex_digit(n: nat) -> char
    recommends
        n < 16,
{
    if n < 10 {
        ((n + 48) as u8) as char
    } else {
        ((n + 87) as u8) as char
    }
}

/// Lowercase hex of `bytes`, two digits per byte (`{:02x}` for each byte).
pub open spec fn hex_of(bytes: Seq<u8>) -> Seq<char>
    decreases bytes.len(),
{
    if bytes.len() == 0 {
        Seq::empty()
    } else {
        hex_of(bytes.drop_last()) + seq![
            hex_digit((bytes.last() / 16) as nat),
            hex_digit((bytes.last() % 16) as nat),
        ]
    }
}

proof fn lemma_hex_len(bytes: Seq<u8>)
    ensures
        hex_of(bytes).len() == 2 * bytes.len(),
    decreases bytes.len(),
{
    if bytes.len() > 0 {
        lemma_hex_len(bytes.drop_last());
    }
}

fn hex_char(n: u8) -> (c: char)
    requires
        n < 16,
    ensures
        c == hex_digit(n as nat),
{
    if n < 10 {
        (n + 48) as char
    } else {
        (n + 87) as char
    }
}

/// Lowercase hex encoding of `bytes`.
pub fn to_hex(bytes: &[u8]) -> (r: String)
    ensures
        r@ == hex_of(bytes@),
        r@.len() == 2 * bytes@.len(),
{
    let mut out: Vec<char> = Vec::new();
    let mut i: usize = 0;
    while i < bytes.len()
        invariant
            i <= bytes.len(),
            out@ == hex_of(bytes@.take(i as int)),
        decreases bytes.len() - i,
    {
        let b = bytes[i];
        out.push(hex_char(b / 16));
        out.push(hex_char(b % 16));
        assert(bytes@.take(i + 1).drop_last() =~= bytes@.take(i as int));
        i = i + 1;
        assert(out@ =~= hex_of(bytes@.take(i as int)));
    }
    assert(bytes@.take(bytes.len() as int) =~= bytes@);
    proof {
        lemma_hex_len(bytes@);
    }
    string_of(&out)
}

/// The SHA-256, SHA-1 and MD5 checksums of `data`, in that order, each as
/// lowercase hex.
pub fn checksums_of(data: &[u8]) -> (r: Vec<Checksum>)
    ensures
        r@.len() == 3,
        r@[0].kind@ == "sha256"@ && r@[0].value@ == hex_of(sha256_of(data@)),
        r@[1].kind@ == "sha1"@ && r@[1].value@ == hex_of(sha1_of(data@)),
        r@[2].kind@ == "md5"@ && r@[2].value@ == hex_of(md5_of(data@)),
{
    let a = sha256_digest(data);
    let b = sha1_digest(data);
    let c = md5_digest(data);
    let mut r: Vec<Checksum> = Vec::new();
    r.push(Checksum { kind: own("sha256"), value: to_hex(a.as_slice()) });
    r.push(Checksum { kind: own("sha1"), value: to_hex(b.as_slice()) });
    r.push(Checksum { kind: own("md5"), value: to_hex(c.as_slice()) });
    r
}

/// The SHA-256 of `data` as lowercase hex.
pub fn sha256_hex(data: &[u8]) -> (r: String)
    ensures
        r@ == hex_of(sha256_of(data@)),
        r@.len() == 64,
{
    let a = sha256_digest(data);
    to_hex(a.as_slice())
}

} // verus!
