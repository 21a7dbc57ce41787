use vstd::prelude::*;
use vstd::string::StringSliceAdditionalSpecFns;
use vstd::string::StrSliceExecFns;

use crate::util::{join, join_path, push_text, signed_decimal, signed_decimal_text};

verus! {

/// The bytes `stable_hash` digests: each part as its length in eight
/// little-endian bytes followed by the part itself, so that no two lists of
/// parts frame to the same bytes.
pub open spec fn framed(parts: Seq<Seq<u8>>) -> Seq<u8>
    decreases parts.len(),
{
    if parts.len() == 0 {
        Seq::empty()
    } else {
        let last = parts.last();
        framed(parts.drop_last()) + vstd::bytes::spec_u64_to_le_bytes((last.len() as usize) as u64) + last
    }
}

/// The length prefix of a framed part.
pub open spec fn length_prefix(part: Seq<u8>) -> Seq<u8> {
    vstd::bytes::spec_u64_to_le_bytes((part.len() as usize) as u64)
}

/// The framing read from the front: the first part with its prefix, then
/// the framing of the rest.
pub open spec fn framed_front(parts: Seq<Seq<u8>>) -> Seq<u8>
    decreases parts.len(),
{
    if parts.len() == 0 {
        Seq::empty()
    } else {
        length_prefix(parts[0]) + parts[0] + framed_front(parts.drop_first())
    }
}

proof fn lemma_framed_front_push(parts: Seq<Seq<u8>>, part: Seq<u8>)
    ensures
        framed_front(parts.push(part)) == framed_front(parts) + length_prefix(part) + part,
    decreases parts.len(),
{
    if parts.len() == 0 {
        let single = parts.push(part);
        assert(single.drop_first() =~= Seq::<Seq<u8>>::empty());
        assert(framed_front(single.drop_first()) == Seq::<u8>::empty());
        assert(single[0] == part);
        assert(framed_front(parts) == Seq::<u8>::empty());
        assert(framed_front(single) =~= framed_front(parts) + length_prefix(part) + part);
    } else {
        let longer = parts.push(part);
        assert(longer.drop_first() =~= parts.drop_first().push(part));
        assert(longer[0] == parts[0]);
        lemma_framed_front_push(parts.drop_first(), part);
        let head = length_prefix(parts[0]) + parts[0];
        assert(framed_front(longer) == head + framed_front(parts.drop_first().push(part)));
        assert(framed_front(parts) == head + framed_front(parts.drop_first()));
        assert(framed_front(longer) =~= framed_front(parts) + length_prefix(part) + part);
    }
}

proof fn lemma_framed_is_front(parts: Seq<Seq<u8>>)
    ensures
        framed(parts) == framed_front(parts),
    decreases parts.len(),
{
    if parts.len() > 0 {
        lemma_framed_is_front(parts.drop_last());
        lemma_framed_front_push(parts.drop_last(), parts.last());
        assert(parts.drop_last().push(parts.last()) =~= parts);
    }
}

/// Every part is short enough for its length to be a `usize`.
pub open spec fn addressable(parts: Seq<Seq<u8>>) -> bool {
    forall|i: int| 0 <= i < parts.len() ==> (#[trigger] parts[i]).len() <= usize::MAX
}

proof fn lemma_framed_front_injective(a: Seq<Seq<u8>>, b: Seq<Seq<u8>>)
    requires
        addressable(a),
        addressable(b),
        framed_front(a) == framed_front(b),
    ensures
        a == b,
    decreases a.len(),
{
    vstd::bytes::lemma_auto_spec_u64_to_from_le_bytes();
    if a.len() == 0 && b.len() == 0 {
        assert(a =~= b);
    } else if a.len() == 0 {
        assert(length_prefix(b[0]).len() == 8);
        assert(framed_front(b).len() >= 8);
    } else if b.len() == 0 {
        assert(length_prefix(a[0]).len() == 8);
        assert(framed_front(a).len() >= 8);
    } else {
        let fa = framed_front(a);
        let la = length_prefix(a[0]);
        let lb = length_prefix(b[0]);
        assert(la.len() == 8 && lb.len() == 8);
        assert(fa.subrange(0, 8) =~= la);
        assert(fa.subrange(0, 8) =~= lb);
        assert(vstd::bytes::spec_u64_from_le_bytes(la) == (a[0].len() as usize) as u64);
        assert(vstd::bytes::spec_u64_from_le_bytes(lb) == (b[0].len() as usize) as u64);
        assert(a[0].len() <= usize::MAX);
        assert(b[0].len() <= usize::MAX);
        let n = a[0].len() as int;
        assert(b[0].len() == n);
        assert(fa.subrange(8, 8 + n) =~= a[0]);
        assert(fa.subrange(8, 8 + n) =~= b[0]);
        assert(fa.skip(8 + n) =~= framed_front(a.drop_first()));
        assert(fa.skip(8 + n) =~= framed_front(b.drop_first()));
        assert(addressable(a.drop_first()));
        assert(addressable(b.drop_first()));
        lemma_framed_front_injective(a.drop_first(), b.drop_first());
        assert(a =~= seq![a[0]] + a.drop_first());
        assert(b =~= seq![b[0]] + b.drop_first());
    }
}

/// The framing is injective: two lists of parts frame to the same bytes
/// only when they are the same list, so moving bytes between parts always
/// changes what is hashed.
pub proof fn lemma_framing_is_injective(a: Seq<Seq<u8>>, b: Seq<Seq<u8>>)
    requires
        addressable(a),
        addressable(b),
        framed(a) == framed(b),
    ensures
        a == b,
{
    lemma_framed_is_front(a);
    lemma_framed_is_front(b);
    lemma_framed_front_injective(a, b);
}

/// The 32-byte BLAKE3 digest of `input`.
pub uninterp spec fn blake3_digest(input: Seq<u8>) -> Seq<u8>;

/// A lowercase hexadecimal digit.
pub open spec fn hex_digit(n: int) -> char {
    if n < 10 {
        (48 + n) as char
    } else {
        (87 + n) as char
    }
}

/// Two lowercase hexadecimal digits per byte, high nibble first.
pub open spec fn lower_hex(bytes: Seq<u8>) -> Seq<char> {
    Seq::new(
        2 * bytes.len(),
        |i: int|
            if i % 2 == 0 {
                hex_digit(bytes[i / 2] as int / 16)
            } else {
                hex_digit(bytes[i / 2] as int % 16)
            },
    )
}

/// The hash text of a list of strings.
pub open spec fn digest_text(parts: Seq<Seq<char>>) -> Seq<char> {
    lower_hex(blake3_digest(framed(parts.map_values(|p: Seq<char>| vstd::utf8::encode_utf8(p)))))
}

/// `c` is one of `0`-`9`, `a`-`f`.
pub open spec fn is_lower_hex_char(c: char) -> bool {
    ('0' <= c && c <= '9') || ('a' <= c && c <= 'f')
}

/// `blake3::hash` of `input`, written out by `Hash::to_hex`: the digest is
/// 32 bytes and its text is two lowercase hexadecimal digits per byte, high
/// nibble first. The bytes of the digest themselves are not stated.
#[verifier::external_body]
fn blake3_hex(input: &[u8]) -> (hex: String)
    ensures
        hex@ == lower_hex(blake3_digest(input@)),
        hex@.len() == 64,
{
    blake3::hash(input).to_hex().as_str().to_owned()
}

proof fn lemma_lower_hex_chars(bytes: Seq<u8>)
    ensures
        lower_hex(bytes).len() == 2 * bytes.len(),
        forall|i: int| 0 <= i < lower_hex(bytes).len() ==> is_lower_hex_char(#[trigger] lower_hex(bytes)[i]),
{
    assert forall|i: int| 0 <= i < lower_hex(bytes).len() implies is_lower_hex_char(#[trigger] lower_hex(bytes)[i]) by {
        let b = bytes[i / 2];
        assert(0 <= b / 16 < 16);
        assert(0 <= b % 16 < 16);
    }
}

fn push_bytes(out: &mut Vec<u8>, bytes: &[u8])
    ensures
        final(out)@ == old(out)@ + bytes@,
{
    let ghost start = out@;
    let mut i: usize = 0;
    while i < bytes.len()
        invariant
            i <= bytes@.len(),
            out@ == start + bytes@.take(i as int),
        decreases bytes@.len() - i,
    {
        out.push(bytes[i]);
        assert(bytes@.take(i + 1) =~= bytes@.take(i as int).push(bytes@[i as int]));
        i = i + 1;
    }
    assert(bytes@.take(bytes@.len() as int) =~= bytes@);
}

/// The framed bytes of `parts`.
pub fn frame_parts(parts: &[&str]) -> (bytes: Vec<u8>)
    ensures
        bytes@ == framed(parts@.map_values(|p: &str| p.spec_bytes())),
{
    let ghost views = parts@.map_values(|p: &str| p.spec_bytes());
    let mut bytes: Vec<u8> = Vec::new();
    let mut i: usize = 0;
    while i < parts.len()
        invariant
            i <= parts@.len(),
            views == parts@.map_values(|p: &str| p.spec_bytes()),
            bytes@ == framed(views.take(i as int)),
        decreases parts@.len() - i,
    {
        let part = parts[i];
        let ghost before = bytes@;
        let length = vstd::bytes::u64_to_le_bytes(part.len() as u64);
        push_bytes(&mut bytes, length.as_slice());
        push_bytes(&mut bytes, part.as_bytes());
        proof {
            assert(views.take(i + 1).drop_last() =~= views.take(i as int));
            assert(views.take(i + 1).last() == part.spec_bytes());
            assert(framed(views.take(i + 1)) == framed(views.take(i as int))
                + vstd::bytes::spec_u64_to_le_bytes((part.spec_bytes().len() as usize) as u64) + part.spec_bytes());
            assert(bytes@ =~= before + vstd::bytes::spec_u64_to_le_bytes((part.spec_bytes().len() as usize) as u64) + part.spec_bytes());
        }
        i = i + 1;
    }
    assert(views.take(parts@.len() as int) =~= views);
    bytes
}

/// A stable hexadecimal BLAKE3 hash of a list of strings, framed so that
/// the boundaries between the strings count.
pub fn stable_hash(parts: &[&str]) -> (hash: String)
    ensures
        hash@ == digest_text(parts@.map_values(|p: &str| p@)),
        hash@.len() == 64,
        forall|i: int| 0 <= i < hash@.len() ==> is_lower_hex_char(#[trigger] hash@[i]),
{
    let bytes = frame_parts(parts);
    let hash = blake3_hex(bytes.as_slice());
    proof {
        let views = parts@.map_values(|p: &str| p@);
        assert(views.map_values(|p: Seq<char>| vstd::utf8::encode_utf8(p)) =~= parts@.map_values(|p: &str| p.spec_bytes()));
        lemma_lower_hex_chars(blake3_digest(bytes@));
    }
    hash
}

/// The seven-digit identifier that ends a run directory's name: the start
/// of the hash of the clock's nanosecond count.
pub open spec fn run_id(nanos: int) -> Seq<char> {
    digest_text(seq![signed_decimal_text(nanos)]).take(7)
}

/// A fresh run directory below `cwd`: `bisectrunk-runs/<timestamp>-<id>`,
/// where `timestamp` is the local time as `%Y%m%d-%H%M%S` and `nanos` the
/// time in nanoseconds since the epoch.
pub fn new_run_dir(cwd: &str, timestamp: &str, nanos: i128) -> (dir: String)
    ensures
        dir@ == join_path(join_path(cwd@, "bisectrunk-runs"@), timestamp@ + "-"@ + run_id(nanos as int)),
{
    proof {
        reveal_strlit("bisectrunk-runs");
        reveal_strlit("-");
    }
    let count = signed_decimal(nanos);
    let parts: [&str; 1] = [count.as_str()];
    let id = stable_hash(parts.as_slice());
    proof {
        assert(parts@.map_values(|p: &str| p@) =~= seq![signed_decimal_text(nanos as int)]);
    }
    let mut name = timestamp.to_string();
    push_text(&mut name, "-");
    push_text(&mut name, id.as_str().substring_char(0, 7));
    let runs = join(cwd, "bisectrunk-runs");
    join(runs.as_str(), name.as_str())
}

} // verus!
