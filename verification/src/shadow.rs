use vstd::prelude::*;

use crate::error::Error;
use crate::text::bytes_to_string;

verus! {

pub open spec fn is_dec_digit_char(c: char) -> bool {
    0x30 <= c as u32 <= 0x39
}

pub open spec fn is_hex_char(c: char) -> bool {
    is_dec_digit_char(c) || 0x61 <= c as u32 <= 0x66
}

pub open spec fn dec_digit_val(c: char) -> int {
    c as u32 - 0x30
}

pub open spec fn digit_char(d: int) -> char {
    if d == 0 {
        '0'
    } else if d == 1 {
        '1'
    } else if d == 2 {
        '2'
    } else if d == 3 {
        '3'
    } else if d == 4 {
        '4'
    } else if d == 5 {
        '5'
    } else if d == 6 {
        '6'
    } else if d == 7 {
        '7'
    } else if d == 8 {
        '8'
    } else {
        '9'
    }
}

/// The canonical decimal form of a non-negative number.
pub open spec fn dec_chars(n: int) -> Seq<char>
    decreases n,
{
    if n < 10 {
        seq![digit_char(n)]
    } else {
        dec_chars(n / 10) + seq![digit_char(n % 10)]
    }
}

/// The number a digit string denotes.
pub open spec fn chars_val(s: Seq<char>) -> int
    decreases s.len(),
{
    if s.len() == 0 {
        0
    } else {
        chars_val(s.drop_last()) * 10 + dec_digit_val(s.last())
    }
}

/// A digit string is canonical when it is non-empty, all digits, has no
/// leading zero (except "0" itself), and fits the size field's range.
pub open spec fn is_canonical_dec(s: Seq<char>) -> bool {
    &&& s.len() >= 1
    &&& (forall|i: int| 0 <= i < s.len() ==> is_dec_digit_char(#[trigger] s[i]))
    &&& (s[0] == '0' ==> s.len() == 1)
    &&& chars_val(s) <= u64::MAX
}

proof fn lemma_digit_char_val(d: int)
    requires
        0 <= d <= 9,
    ensures
        dec_digit_val(digit_char(d)) == d,
        is_dec_digit_char(digit_char(d)),
{
}

proof fn lemma_digit_roundtrip(c: char)
    requires
        is_dec_digit_char(c),
    ensures
        digit_char(dec_digit_val(c)) == c,
        0 <= dec_digit_val(c) <= 9,
{
    assert(c == '0' || c == '1' || c == '2' || c == '3' || c == '4' || c == '5' || c == '6' || c
        == '7' || c == '8' || c == '9');
}

proof fn lemma_chars_val_single(c: char)
    ensures
        chars_val(seq![c]) == dec_digit_val(c),
{
    assert(seq![c].drop_last() =~= Seq::<char>::empty());
    assert(chars_val(Seq::<char>::empty()) == 0);
}

pub proof fn lemma_dec_chars_canonical(n: int)
    requires
        0 <= n <= u64::MAX,
    ensures
        dec_chars(n).len() >= 1,
        forall|i: int| 0 <= i < dec_chars(n).len() ==> is_dec_digit_char(#[trigger] dec_chars(n)[i]),
        dec_chars(n)[0] == '0' ==> dec_chars(n).len() == 1,
        chars_val(dec_chars(n)) == n,
        is_canonical_dec(dec_chars(n)),
    decreases n,
{
    if n < 10 {
        lemma_digit_char_val(n);
        lemma_chars_val_single(digit_char(n));
        assert(dec_chars(n) == seq![digit_char(n)]);
    } else {
        let q = n / 10;
        let d = n % 10;
        assert(1 <= q <= u64::MAX && 0 <= d < 10 && q * 10 + d == n) by (nonlinear_arith)
            requires
                10 <= n <= u64::MAX,
                q == n / 10,
                d == n % 10,
        ;
        lemma_dec_chars_canonical(q);
        lemma_digit_char_val(d);
        let s = dec_chars(n);
        assert(s == dec_chars(q) + seq![digit_char(d)]);
        assert(s.drop_last() =~= dec_chars(q));
        assert(s.last() == digit_char(d));
        assert(chars_val(s) == q * 10 + d);
        assert(s[0] == dec_chars(q)[0]);
        if s[0] == '0' {
            assert(dec_chars(q).len() == 1);
            assert(chars_val(dec_chars(q)) == q);
            lemma_chars_val_single(dec_chars(q)[0]);
            assert(dec_chars(q) =~= seq![dec_chars(q)[0]]);
            assert(dec_digit_val('0') == 0);
        }
    }
}

/// A canonical digit string is the canonical form of its value.
pub proof fn lemma_canonical_unique(s: Seq<char>)
    requires
        s.len() >= 1,
        forall|i: int| 0 <= i < s.len() ==> is_dec_digit_char(#[trigger] s[i]),
        s[0] == '0' ==> s.len() == 1,
    ensures
        chars_val(s) >= 0,
        s.len() >= 2 ==> chars_val(s) >= 10,
        s == dec_chars(chars_val(s)),
    decreases s.len(),
{
    if s.len() == 1 {
        lemma_digit_roundtrip(s[0]);
        lemma_chars_val_single(s[0]);
        assert(s =~= seq![s[0]]);
        assert(chars_val(s) == dec_digit_val(s[0]));
        assert(dec_chars(chars_val(s)) == seq![digit_char(dec_digit_val(s[0]))]);
        assert(dec_chars(chars_val(s)) =~= s);
    } else {
        let t = s.drop_last();
        lemma_digit_roundtrip(s.last());
        let d = dec_digit_val(s.last());
        assert(t[0] == s[0]);
        lemma_canonical_unique(t);
        let q = chars_val(t);
        if t.len() >= 2 {
            assert(q >= 10);
        } else {
            assert(t.len() == 1);
            assert(s[0] != '0');
            lemma_chars_val_single(t[0]);
            assert(t =~= seq![t[0]]);
            lemma_digit_roundtrip(t[0]);
            if q == 0 {
                assert(digit_char(0) == '0');
                assert(t[0] == '0');
            }
            assert(q >= 1);
        }
        let n = chars_val(s);
        assert(n == q * 10 + d);
        assert(n >= 10 && n / 10 == q && n % 10 == d) by (nonlinear_arith)
            requires
                q >= 1,
                0 <= d < 10,
                n == q * 10 + d,
        ;
        assert(dec_chars(n) == dec_chars(q) + seq![digit_char(d)]);
        assert(s =~= t + seq![s.last()]);
        assert(dec_chars(n) =~= s);
    }
}

proof fn lemma_chars_val_take(s: Seq<char>, i: int)
    requires
        0 <= i < s.len(),
    ensures
        chars_val(s.take(i + 1)) == chars_val(s.take(i)) * 10 + dec_digit_val(s[i]),
{
    assert(s.take(i + 1).drop_last() =~= s.take(i));
    assert(s.take(i + 1).last() == s[i]);
}

proof fn lemma_chars_val_nonneg(s: Seq<char>)
    requires
        forall|k: int| 0 <= k < s.len() ==> is_dec_digit_char(#[trigger] s[k]),
    ensures
        chars_val(s) >= 0,
    decreases s.len(),
{
    if s.len() > 0 {
        assert(forall|k: int|
            0 <= k < s.drop_last().len() ==> is_dec_digit_char(#[trigger] s.drop_last()[k]));
        lemma_chars_val_nonneg(s.drop_last());
        let v = chars_val(s.drop_last());
        assert(v * 10 >= 0) by (nonlinear_arith)
            requires
                v >= 0,
        ;
        lemma_digit_roundtrip(s.last());
    }
}

proof fn lemma_chars_val_monotone(s: Seq<char>, i: int)
    requires
        0 <= i <= s.len(),
        forall|k: int| 0 <= k < s.len() ==> is_dec_digit_char(#[trigger] s[k]),
    ensures
        chars_val(s) >= chars_val(s.take(i)),
    decreases s.len() - i,
{
    if i == s.len() {
        assert(s.take(i) =~= s);
    } else {
        lemma_chars_val_take(s, i);
        assert(forall|k: int|
            0 <= k < s.take(i).len() ==> is_dec_digit_char(#[trigger] s.take(i)[k]));
        lemma_chars_val_nonneg(s.take(i));
        let v = chars_val(s.take(i));
        lemma_digit_roundtrip(s[i]);
        assert(v * 10 + dec_digit_val(s[i]) >= v) by (nonlinear_arith)
            requires
                v >= 0,
                dec_digit_val(s[i]) >= 0,
        ;
        lemma_chars_val_monotone(s, i + 1);
    }
}

/// Parses a canonical decimal digit string into a number.
fn parse_dec(s: &str, from: usize, to: usize) -> (r: Result<u64, Error>)
    requires
        from <= to <= s@.len(),
    ensures
        (r is Ok) == is_canonical_dec(s@.subrange(from as int, to as int)),
        r matches Ok(n) ==> s@.subrange(from as int, to as int) == dec_chars(n as int),
        r is Err ==> r->Err_0 == Error::MalformedShadow,
{
    let ghost t = s@.subrange(from as int, to as int);
    if from == to {
        return Err(Error::MalformedShadow);
    }
    let first = s.get_char(from);
    let first_u = first as u32;
    if first_u < 0x30 || first_u > 0x39 {
        return Err(Error::MalformedShadow);
    }
    if first == '0' && to - from > 1 {
        proof {
            assert(t[0] == '0' && t.len() > 1);
        }
        return Err(Error::MalformedShadow);
    }
    let mut acc: u64 = 0;
    let mut i = from;
    while i < to
        invariant
            from <= i <= to <= s@.len(),
            t == s@.subrange(from as int, to as int),
            t.len() >= 1,
            forall|k: int| 0 <= k < i - from ==> is_dec_digit_char(#[trigger] t[k]),
            acc as int == chars_val(t.take(i - from)),
        decreases to - i,
    {
        let c = s.get_char(i);
        let u = c as u32;
        if u < 0x30 || u > 0x39 {
            proof {
                assert(!is_dec_digit_char(t[i - from]));
            }
            return Err(Error::MalformedShadow);
        }
        let d = (u - 0x30) as u64;
        if acc > (u64::MAX - d) / 10 {
            proof {
                if forall|k: int| 0 <= k < t.len() ==> is_dec_digit_char(#[trigger] t[k]) {
                    let v = chars_val(t.take(i - from));
                    assert(v >= 0) by {
                        lemma_chars_val_nonneg(t.take(i - from));
                    }
                    assert(v * 10 + d > u64::MAX) by (nonlinear_arith)
                        requires
                            v > (u64::MAX - d) / 10,
                            0 <= d < 10,
                            v >= 0,
                    ;
                    lemma_chars_val_take(t, i - from);
                    assert(chars_val(t.take(i - from + 1)) > u64::MAX);
                    lemma_chars_val_monotone(t, i - from + 1);
                    assert(chars_val(t) > u64::MAX);
                }
            }
            return Err(Error::MalformedShadow);
        }
        proof {
            let v = chars_val(t.take(i - from));
            assert(v * 10 + d <= u64::MAX) by (nonlinear_arith)
                requires
                    v <= (u64::MAX - d) / 10,
                    0 <= d < 10,
                    v >= 0,
            ;
            lemma_chars_val_take(t, i - from);
        }
        acc = acc * 10 + d;
        i += 1;
    }
    proof {
        assert(t.take(to - from) =~= t);
        assert(is_canonical_dec(t));
        lemma_canonical_unique(t);
    }
    Ok(acc)
}

/// Appends the canonical decimal form of `n`.
fn push_dec(n: u64, out: &mut String)
    ensures
        final(out)@ == old(out)@ + dec_chars(n as int),
    decreases n,
{
    if n >= 10 {
        push_dec(n / 10, out);
    }
    let d = n % 10;
    let ds: &str = if d == 0 {
        "0"
    } else if d == 1 {
        "1"
    } else if d == 2 {
        "2"
    } else if d == 3 {
        "3"
    } else if d == 4 {
        "4"
    } else if d == 5 {
        "5"
    } else if d == 6 {
        "6"
    } else if d == 7 {
        "7"
    } else if d == 8 {
        "8"
    } else {
        "9"
    };
    proof {
        reveal_strlit("0");
        reveal_strlit("1");
        reveal_strlit("2");
        reveal_strlit("3");
        reveal_strlit("4");
        reveal_strlit("5");
        reveal_strlit("6");
        reveal_strlit("7");
        reveal_strlit("8");
        reveal_strlit("9");
        assert(ds@ =~= seq![digit_char(n as int % 10)]);
    }
    out.append(ds);
    proof {
        if n >= 10 {
            assert(old(out)@ + dec_chars(n as int) =~= (old(out)@ + dec_chars(n as int / 10))
                + seq![digit_char(n as int % 10)]);
        } else {
            assert(dec_chars(n as int) == seq![digit_char(n as int)]);
            assert(old(out)@ + dec_chars(n as int) =~= old(out)@ + seq![digit_char(n as int)]);
        }
    }
}

/// A 256-bit content digest, held in its 64-character lowercase-hex text
/// form.
#[derive(Clone, Debug, PartialEq, Eq)]
pub struct ContentHash {
    hex: String,
}

impl View for ContentHash {
    type V = Seq<char>;

    closed spec fn view(&self) -> Seq<char> {
        self.hex@
    }
}

pub open spec fn valid_hash_chars(s: Seq<char>) -> bool {
    s.len() == 64 && forall|i: int| 0 <= i < s.len() ==> is_hex_char(#[trigger] s[i])
}

impl ContentHash {
    pub open spec fn wf(&self) -> bool {
        valid_hash_chars(self@)
    }

    /// Parses the 64-character lowercase-hex text form of a digest.
    pub fn parse(s: &str) -> (r: Result<ContentHash, Error>)
        ensures
            (r is Ok) == valid_hash_chars(s@),
            r matches Ok(h) ==> h@ == s@ && h.wf(),
            r is Err ==> r->Err_0 == Error::MalformedShadow,
    {
        let n = s.unicode_len();
        if n != 64 {
            return Err(Error::MalformedShadow);
        }
        let mut i: usize = 0;
        while i < 64
            invariant
                0 <= i <= 64,
                s@.len() == 64,
                forall|k: int| 0 <= k < i ==> is_hex_char(#[trigger] s@[k]),
            decreases 64 - i,
        {
            let u = s.get_char(i) as u32;
            if !((0x30 <= u && u <= 0x39) || (0x61 <= u && u <= 0x66)) {
                proof {
                    assert(!is_hex_char(s@[i as int]));
                }
                return Err(Error::MalformedShadow);
            }
            i += 1;
        }
        Ok(ContentHash { hex: String::from_str(s) })
    }

    pub fn as_str(&self) -> (r: &str)
        ensures
            r@ == self@,
    {
        self.hex.as_str()
    }

    pub fn to_string(&self) -> (r: String)
        ensures
            r@ == self@,
    {
        self.hex.clone()
    }

    pub fn equals(&self, other: &ContentHash) -> (r: bool)
        ensures
            r == (self@ == other@),
    {
        self.hex.eq(&other.hex)
    }
}

/// The mathematical value of a shadow: the digest's hex text and the
/// optional byte count.
pub struct ShadowV {
    pub hash: Seq<char>,
    pub size: Option<u64>,
}

/// A stand-in for file content: a content digest plus an optional size.
/// Serialized as the fixed ASCII record `"<64-hex-digest> <decimal size or
/// '?'>"`, stored as the body of a content-addressed blob in place of the
/// file's bytes.
#[derive(Clone, Debug, PartialEq, Eq)]
pub struct Shadow {
    pub content_hash: ContentHash,
    pub size: Option<u64>,
}

impl View for Shadow {
    type V = ShadowV;

    open spec fn view(&self) -> ShadowV {
        ShadowV { hash: self.content_hash@, size: self.size }
    }
}

pub open spec fn shadow_v_wf(s: ShadowV) -> bool {
    valid_hash_chars(s.hash)
}

/// The text of a shadow record.
pub open spec fn shadow_chars(s: ShadowV) -> Seq<char> {
    s.hash + seq![' '] + match s.size {
        Some(n) => dec_chars(n as int),
        None => seq!['?'],
    }
}

/// The bytes of a shadow record: the UTF-8 form of its text (which is pure
/// ASCII).
pub open spec fn shadow_bytes_spec(s: ShadowV) -> Seq<u8> {
    vstd::utf8::encode_utf8(shadow_chars(s))
}

/// Whether a blob body is the encoding of some well-formed shadow.
pub open spec fn is_shadow_blob(v: Seq<u8>) -> bool {
    exists|s: ShadowV| shadow_v_wf(s) && v == shadow_bytes_spec(s)
}

/// The shadow encoding is injective on well-formed shadows.
pub proof fn lemma_shadow_encoding_injective(a: ShadowV, b: ShadowV)
    requires
        shadow_v_wf(a),
        shadow_v_wf(b),
        shadow_bytes_spec(a) == shadow_bytes_spec(b),
    ensures
        a == b,
{
    vstd::utf8::encode_utf8_decode_utf8(shadow_chars(a));
    vstd::utf8::encode_utf8_decode_utf8(shadow_chars(b));
    let ca = shadow_chars(a);
    let cb = shadow_chars(b);
    assert(ca == cb);
    assert(a.hash =~= ca.subrange(0, 64));
    assert(b.hash =~= cb.subrange(0, 64));
    let ta = ca.skip(65);
    match (a.size, b.size) {
        (Some(x), Some(y)) => {
            lemma_dec_chars_canonical(x as int);
            lemma_dec_chars_canonical(y as int);
            assert(dec_chars(x as int) =~= ta);
            assert(dec_chars(y as int) =~= ta);
            lemma_canonical_unique(ta);
            assert(chars_val(dec_chars(x as int)) == chars_val(dec_chars(y as int)));
        },
        (Some(x), None) => {
            lemma_dec_chars_canonical(x as int);
            assert(dec_chars(x as int) =~= ta);
            assert(ta =~= seq!['?']);
            assert(is_dec_digit_char('?') == false);
        },
        (None, Some(y)) => {
            lemma_dec_chars_canonical(y as int);
            assert(dec_chars(y as int) =~= ta);
            assert(ta =~= seq!['?']);
            assert(is_dec_digit_char('?') == false);
        },
        (None, None) => {},
    }
}

impl Shadow {
    pub open spec fn wf(&self) -> bool {
        shadow_v_wf(self@)
    }

    pub fn new(content_hash: ContentHash, size: Option<u64>) -> (r: Shadow)
        ensures
            r@ == (ShadowV { hash: content_hash@, size }),
    {
        Shadow { content_hash, size }
    }

    pub fn content_hash(&self) -> (r: &ContentHash)
        ensures
            r@ == self@.hash,
    {
        &self.content_hash
    }

    /// Serializes this shadow to the body of its blob.
    pub fn to_bytes(&self) -> (r: Vec<u8>)
        ensures
            r@ == shadow_bytes_spec(self@),
    {
        let mut s = self.content_hash.to_string();
        s.append(" ");
        proof {
            reveal_strlit(" ");
            assert(" "@ =~= seq![' ']);
        }
        match &self.size {
            Some(n) => {
                push_dec(*n, &mut s);
            },
            None => {
                s.append("?");
                proof {
                    reveal_strlit("?");
                    assert("?"@ =~= seq!['?']);
                }
            },
        }
        proof {
            assert(s@ =~= shadow_chars(self@));
        }
        s.as_str().as_bytes_vec()
    }

    /// Deserializes a blob body, failing with `MalformedShadow` unless it is
    /// the exact encoding of a well-formed shadow.
    pub fn from_bytes(v: &Vec<u8>) -> (r: Result<Shadow, Error>)
        ensures
            (r is Ok) == is_shadow_blob(v@),
            r matches Ok(sh) ==> sh.wf() && v@ == shadow_bytes_spec(sh@),
            r is Err ==> r->Err_0 == Error::MalformedShadow,
    {
        proof {
            if is_shadow_blob(v@) {
                let s = choose|s: ShadowV| shadow_v_wf(s) && v@ == shadow_bytes_spec(s);
                vstd::utf8::encode_utf8_valid_utf8(shadow_chars(s));
                vstd::utf8::encode_utf8_decode_utf8(shadow_chars(s));
                if s.size is Some {
                    lemma_dec_chars_canonical(s.size->0 as int);
                }
            }
        }
        let text = match bytes_to_string(v) {
            Some(t) => t,
            None => {
                return Err(Error::MalformedShadow);
            },
        };
        let ghost witness: ShadowV = if is_shadow_blob(v@) {
            choose|s: ShadowV| shadow_v_wf(s) && v@ == shadow_bytes_spec(s)
        } else {
            arbitrary()
        };
        proof {
            if is_shadow_blob(v@) {
                assert(text@ == shadow_chars(witness));
                assert(text@.subrange(0, 64) =~= witness.hash);
                assert(text@[64] == ' ');
            }
        }
        let s = text.as_str();
        let n = s.unicode_len();
        if n < 66 {
            proof {
                if is_shadow_blob(v@) {
                    match witness.size {
                        Some(x) => {
                            assert(dec_chars(x as int).len() >= 1);
                        },
                        None => {},
                    }
                }
            }
            return Err(Error::MalformedShadow);
        }
        let hash_str = s.substring_char(0, 64);
        let content_hash = match ContentHash::parse(hash_str) {
            Ok(h) => h,
            Err(e) => {
                proof {
                    if is_shadow_blob(v@) {
                        assert(valid_hash_chars(hash_str@));
                    }
                }
                return Err(e);
            },
        };
        if s.get_char(64) != ' ' {
            return Err(Error::MalformedShadow);
        }
        let ghost tail = text@.skip(65);
        let size: Option<u64> = if n == 66 && s.get_char(65) == '?' {
            proof {
                assert(tail =~= seq!['?']);
            }
            None
        } else {
            proof {
                if is_shadow_blob(v@) {
                    match witness.size {
                        Some(x) => {
                            assert(tail =~= dec_chars(x as int));
                        },
                        None => {
                            assert(tail =~= seq!['?']);
                            assert(text@.len() == 66 && text@[65] == '?');
                        },
                    }
                }
            }
            match parse_dec(s, 65, n) {
                Ok(sz) => {
                    proof {
                        assert(tail =~= s@.subrange(65, n as int));
                    }
                    Some(sz)
                },
                Err(e) => {
                    return Err(e);
                },
            }
        };
        let sh = Shadow { content_hash, size };
        proof {
            assert(shadow_chars(sh@) =~= text@);
            vstd::utf8::decode_utf8_encode_utf8(v@);
            assert(v@ == shadow_bytes_spec(sh@));
        }
        Ok(sh)
    }
}

} // verus!
