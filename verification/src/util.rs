use vstd::prelude::*;
use vstd::string::StringExecFns;
use vstd::string::StringSliceAdditionalSpecFns;
use vstd::string::StrSliceExecFns;

verus! {

/// The bytes of the first `min(len, 12)` bytes of `sha` when that is a
/// character boundary; the whole of `sha` otherwise.
pub open spec fn short_sha_bytes(sha: Seq<u8>) -> Seq<u8> {
    let len = (sha.len() as usize) as int;
    let n = if len < 12 {
        len
    } else {
        12
    };
    if vstd::utf8::is_char_boundary(sha, n) {
        sha.subrange(0, n)
    } else {
        sha
    }
}

/// The characters of the abbreviated SHA.
pub open spec fn short_text(sha: Seq<char>) -> Seq<char> {
    vstd::utf8::decode_utf8(short_sha_bytes(vstd::utf8::encode_utf8(sha)))
}

/// The abbreviated SHA shown in reports: the first twelve bytes.
pub fn short_sha(sha: &str) -> (short: &str)
    ensures
        short.spec_bytes() == short_sha_bytes(sha.spec_bytes()),
        short@ == short_text(sha@),
{
    proof {
        vstd::utf8::encode_utf8_decode_utf8(sha@);
    }
    let n = if sha.len() < 12 {
        sha.len()
    } else {
        12
    };
    let ghost bytes = sha.spec_bytes();
    if sha.is_char_boundary(n) {
        let parts = sha.split_at(n);
        assert(parts.0.spec_bytes() == bytes.subrange(0, n as int));
        proof {
            vstd::utf8::encode_utf8_decode_utf8(parts.0@);
        }
        parts.0
    } else {
        sha
    }
}

/// `out` followed by `piece`.
pub fn push_text(out: &mut String, piece: &str)
    ensures
        final(out)@ == old(out)@ + piece@,
{
    out.append(piece);
}


/// `dir` joined with `name`, as `Path::join` does on Unix: an absolute
/// `name` replaces `dir`.
pub open spec fn join_path(dir: Seq<char>, name: Seq<char>) -> Seq<char> {
    if name.len() > 0 && name[0] == '/' {
        name
    } else if dir.len() == 0 {
        name
    } else if dir.last() == '/' {
        dir + name
    } else {
        dir + "/"@ + name
    }
}

/// Joins `name` onto `dir`.
pub fn join(dir: &str, name: &str) -> (joined: String)
    ensures
        joined@ == join_path(dir@, name@),
{
    if name.unicode_len() > 0 && name.get_char(0) == '/' {
        return name.to_string();
    }
    let len = dir.unicode_len();
    let mut joined = dir.to_string();
    if len == 0 {
        return name.to_string();
    }
    if dir.get_char(len - 1) != '/' {
        push_text(&mut joined, "/");
    }
    push_text(&mut joined, name);
    joined
}


/// The decimal digits of `n`.
pub open spec fn decimal_text(n: nat) -> Seq<char>
    decreases n,
{
    if n < 10 {
        seq![digit_char(n)]
    } else {
        decimal_text(n / 10) + seq![digit_char(n % 10)]
    }
}

pub open spec fn digit_char(d: nat) -> char {
    if d == 0 { '0' } else if d == 1 { '1' } else if d == 2 { '2' } else if d == 3 { '3' }
    else if d == 4 { '4' } else if d == 5 { '5' } else if d == 6 { '6' } else if d == 7 { '7' }
    else if d == 8 { '8' } else { '9' }
}

fn digit_str(d: usize) -> (text: &'static str)
    requires
        d < 10,
    ensures
        text@ == seq![digit_char(d as nat)],
{
    proof {
        reveal_strlit("0");
        reveal_strlit("1");
        reveal_strlit("2");
        reveal_strlit("3");
        reveal_strlit("4");
        reveal_strlit("5");
        reveal_strlit("6");
        reveal_strlit("7");
        reveal_strlit("8");
        reveal_strlit("9");
    }
    if d == 0 { "0" } else if d == 1 { "1" } else if d == 2 { "2" } else if d == 3 { "3" }
    else if d == 4 { "4" } else if d == 5 { "5" } else if d == 6 { "6" } else if d == 7 { "7" }
    else if d == 8 { "8" } else { "9" }
}

/// `n` in decimal.
pub fn decimal(n: u128) -> (text: String)
    ensures
        text@ == decimal_text(n as nat),
    decreases n,
{
    if n < 10 {
        digit_str(n as usize).to_string()
    } else {
        let mut text = decimal(n / 10);
        push_text(&mut text, digit_str((n % 10) as usize));
        text
    }
}

/// The decimal text of a signed number, with a leading `-` when negative.
pub open spec fn signed_decimal_text(n: int) -> Seq<char> {
    if n < 0 {
        "-"@ + decimal_text((-n) as nat)
    } else {
        decimal_text(n as nat)
    }
}

/// `n` in decimal, as `to_string` writes a signed integer.
pub fn signed_decimal(n: i128) -> (text: String)
    ensures
        text@ == signed_decimal_text(n as int),
{
    if n < 0 {
        proof {
            reveal_strlit("-");
        }
        let magnitude: u128 = ((0 - (n + 1)) as u128) + 1;
        let mut text = "-".to_string();
        let digits = decimal(magnitude);
        push_text(&mut text, digits.as_str());
        text
    } else {
        decimal(n as u128)
    }
}


/// Lexicographic order of texts by code point, the order of `String`'s `Ord`
/// (UTF-8 bytes compare as their code points do): `a` comes no later than `b`.
pub open spec fn text_le(a: Seq<char>, b: Seq<char>) -> bool
    decreases a.len(),
{
    if a.len() == 0 {
        true
    } else if b.len() == 0 {
        false
    } else if a[0] != b[0] {
        a[0] < b[0]
    } else {
        text_le(a.drop_first(), b.drop_first())
    }
}

/// `text_le` as a relation.
pub open spec fn text_order() -> spec_fn(Seq<char>, Seq<char>) -> bool {
    |a: Seq<char>, b: Seq<char>| text_le(a, b)
}

pub proof fn lemma_text_le_reflexive(a: Seq<char>)
    ensures
        text_le(a, a),
    decreases a.len(),
{
    if a.len() > 0 {
        lemma_text_le_reflexive(a.drop_first());
    }
}

pub proof fn lemma_text_le_antisymmetric(a: Seq<char>, b: Seq<char>)
    requires
        text_le(a, b),
        text_le(b, a),
    ensures
        a == b,
    decreases a.len(),
{
    if a.len() > 0 && b.len() > 0 {
        lemma_text_le_antisymmetric(a.drop_first(), b.drop_first());
        assert(a =~= seq![a[0]] + a.drop_first());
        assert(b =~= seq![b[0]] + b.drop_first());
    }
    assert(a =~= b);
}

pub proof fn lemma_text_le_transitive(a: Seq<char>, b: Seq<char>, c: Seq<char>)
    requires
        text_le(a, b),
        text_le(b, c),
    ensures
        text_le(a, c),
    decreases a.len(),
{
    if a.len() > 0 && b.len() > 0 && c.len() > 0 && a[0] == b[0] && b[0] == c[0] {
        lemma_text_le_transitive(a.drop_first(), b.drop_first(), c.drop_first());
    }
}

pub proof fn lemma_text_le_connected(a: Seq<char>, b: Seq<char>)
    ensures
        text_le(a, b) || text_le(b, a),
    decreases a.len(),
{
    if a.len() > 0 && b.len() > 0 && a[0] == b[0] {
        lemma_text_le_connected(a.drop_first(), b.drop_first());
    }
}

/// Texts are totally ordered by `text_le`.
pub proof fn lemma_text_order_total()
    ensures
        vstd::relations::total_ordering(text_order()),
{
    assert forall|a: Seq<char>| #[trigger] text_order()(a, a) by {
        lemma_text_le_reflexive(a);
    }
    assert forall|a: Seq<char>, b: Seq<char>| #[trigger] text_order()(a, b) && #[trigger] text_order()(b, a) implies a == b by {
        lemma_text_le_antisymmetric(a, b);
    }
    assert forall|a: Seq<char>, b: Seq<char>, c: Seq<char>| #[trigger] text_order()(a, b) && #[trigger] text_order()(b, c) implies text_order()(a, c) by {
        lemma_text_le_transitive(a, b, c);
    }
    assert forall|a: Seq<char>, b: Seq<char>| #[trigger] text_order()(a, b) || #[trigger] text_order()(b, a) by {
        lemma_text_le_connected(a, b);
    }
}

/// Whether `a` comes no later than `b` in `text_le` order.
pub fn text_at_most(a: &str, b: &str) -> (le: bool)
    ensures
        le == text_le(a@, b@),
{
    let alen = a.unicode_len();
    let blen = b.unicode_len();
    let mut i: usize = 0;
    assert(a@.skip(0) =~= a@);
    assert(b@.skip(0) =~= b@);
    while i < alen && i < blen
        invariant
            alen == a@.len(),
            blen == b@.len(),
            i <= alen,
            i <= blen,
            text_le(a@, b@) == text_le(a@.skip(i as int), b@.skip(i as int)),
        decreases alen - i,
    {
        let ca = a.get_char(i);
        let cb = b.get_char(i);
        if ca != cb {
            return ca < cb;
        }
        assert(a@.skip(i as int).drop_first() =~= a@.skip(i + 1));
        assert(b@.skip(i as int).drop_first() =~= b@.skip(i + 1));
        i = i + 1;
    }
    assert(i == alen ==> a@.skip(i as int).len() == 0);
    assert(i < alen ==> i == blen && b@.skip(i as int).len() == 0 && a@.skip(i as int).len() > 0);
    i == alen
}


/// Different numbers have different decimal texts.
pub proof fn lemma_decimal_text_injective(n: nat, m: nat)
    requires
        decimal_text(n) == decimal_text(m),
    ensures
        n == m,
    decreases n,
{
    if n >= 10 && m >= 10 {
        let x = decimal_text(n / 10);
        let y = decimal_text(m / 10);
        assert(decimal_text(n) == x + seq![digit_char(n % 10)]);
        assert(decimal_text(m) == y + seq![digit_char(m % 10)]);
        assert(x =~= decimal_text(n).drop_last());
        assert(y =~= decimal_text(m).drop_last());
        assert(digit_char(n % 10) == decimal_text(n).last());
        assert(digit_char(m % 10) == decimal_text(m).last());
        lemma_decimal_text_injective(n / 10, m / 10);
    } else if n >= 10 {
        assert(decimal_text(n / 10).len() >= 1);
        assert(decimal_text(n).len() >= 2);
    } else if m >= 10 {
        assert(decimal_text(m / 10).len() >= 1);
        assert(decimal_text(m).len() >= 2);
    } else {
        assert(decimal_text(n)[0] == digit_char(n));
        assert(decimal_text(m)[0] == digit_char(m));
    }
}

} // verus!
