use vstd::prelude::*;

use crate::data::{empty_data_model, Data, DataModel, FileMetadata};
use crate::key::Key;

verus! {

/// The nine message types of the RPC protocol.
#[derive(PartialEq, Eq, Structural, Clone, Copy, Debug)]
pub enum MsgType {
    Init,
    PeersI,
    PeersR,
    PeersIGet,
    PeersRGet,
    ProviderGet,
    ProvidersGetReply,
    Ping,
    Insert,
}

/// One frame of the RPC protocol.
pub struct Message {
    pub type_of: MsgType,
    pub from: (Key, Vec<u8>),
    pub to: (Key, Vec<u8>),
    pub key: (Key, Vec<u8>),
    pub keys: Vec<(Key, Vec<u8>)>,
    pub providers: Vec<(Vec<u8>, Key)>,
    pub data: (Key, Data),
}

/// The mathematical model of a frame.
pub struct MessageModel {
    pub type_of: MsgType,
    pub from: (Key, Seq<u8>),
    pub to: (Key, Seq<u8>),
    pub key: (Key, Seq<u8>),
    pub keys: Seq<(Key, Seq<u8>)>,
    pub providers: Seq<(Seq<u8>, Key)>,
    pub data: (Key, DataModel),
}

/// The model of a peer record.
pub open spec fn peer_view(p: (Key, Vec<u8>)) -> (Key, Seq<u8>) {
    (p.0, p.1@)
}

impl View for Message {
    type V = MessageModel;

    open spec fn view(&self) -> MessageModel {
        MessageModel {
            type_of: self.type_of,
            from: peer_view(self.from),
            to: peer_view(self.to),
            key: peer_view(self.key),
            keys: Seq::new(self.keys@.len(), |i: int| peer_view(self.keys@[i])),
            providers: Seq::new(
                self.providers@.len(),
                |i: int| (self.providers@[i].0@, self.providers@[i].1),
            ),
            data: (self.data.0, self.data.1@),
        }
    }
}

/// The model of the empty peer record.
pub open spec fn empty_peer_model() -> (Key, Seq<u8>) {
    (Key { key: 0 }, Seq::empty())
}

// ASCII bytes that the wire format is built from.
pub const B_LPAR: u8 = 0x28;

pub const B_RPAR: u8 = 0x29;

pub const B_COMMA: u8 = 0x2c;

pub const B_SPACE: u8 = 0x20;

pub const B_CR: u8 = 0x0d;

pub const B_LF: u8 = 0x0a;

pub const B_QUOTE: u8 = 0x22;

pub const B_BACKSLASH: u8 = 0x5c;

pub const B_LBRACKET: u8 = 0x5b;

pub const B_RBRACKET: u8 = 0x5d;

pub const B_ZERO: u8 = 0x30;

pub const B_NINE: u8 = 0x39;

/// A decimal digit.
pub open spec fn is_digit(b: u8) -> bool {
    B_ZERO <= b <= B_NINE
}

/// A byte that may stand in an address, a name or a filename: anything that
/// does not collide with the format's own delimiters.
pub open spec fn name_byte(b: u8) -> bool {
    b != B_LPAR && b != B_RPAR && b != B_COMMA && b != B_SPACE && b != B_CR && b != B_LF && b
        != B_QUOTE && b != B_BACKSLASH
}

/// A byte sequence fit for an address, a name or a filename.
pub open spec fn wf_name(s: Seq<u8>) -> bool {
    forall|i: int| 0 <= i < s.len() ==> name_byte(#[trigger] s[i])
}

/// The canonical decimal digits of a number, most significant first.
pub open spec fn dec_digits(n: nat) -> Seq<u8>
    decreases n,
{
    if n < 10 {
        seq![(B_ZERO + n) as u8]
    } else {
        dec_digits(n / 10).push((B_ZERO + n % 10) as u8)
    }
}

/// Decimal digits are digits.
pub proof fn lemma_dec_digits_are_digits(n: nat)
    ensures
        dec_digits(n).len() >= 1,
        forall|i: int| 0 <= i < dec_digits(n).len() ==> is_digit(#[trigger] dec_digits(n)[i]),
    decreases n,
{
    if n >= 10 {
        lemma_dec_digits_are_digits(n / 10);
        assert(forall|i: int|
            0 <= i < dec_digits(n).len() - 1 ==> #[trigger] dec_digits(n)[i] == dec_digits(
                n / 10,
            )[i]);
        assert(dec_digits(n)[dec_digits(n).len() - 1] == (B_ZERO + n % 10) as u8);
    }
}

/// Appends the decimal digits of `n` to `out`.
pub fn push_dec(out: &mut Vec<u8>, n: u32)
    ensures
        final(out)@ == old(out)@ + dec_digits(n as nat),
    decreases n,
{
    if n < 10 {
        out.push(B_ZERO + (n as u8));
        assert(out@ =~= old(out)@ + dec_digits(n as nat));
    } else {
        let ghost mid = out@;
        push_dec(out, n / 10);
        out.push(B_ZERO + ((n % 10) as u8));
        assert(out@ =~= old(out)@ + dec_digits(n as nat));
    }
}

/// The first position at or after `i` that holds no digit.
#[verifier::opaque]
pub open spec fn scan_digits(s: Seq<u8>, i: int) -> int
    decreases s.len() - i,
{
    if 0 <= i < s.len() && is_digit(s[i]) {
        scan_digits(s, i + 1)
    } else {
        i
    }
}

/// The value of the digit run `s[i..j)`.
#[verifier::opaque]
pub open spec fn digits_val(s: Seq<u8>, i: int, j: int) -> int
    decreases j - i,
{
    if i >= j {
        0
    } else {
        digits_val(s, i, j - 1) * 10 + (s[j - 1] - B_ZERO)
    }
}

/// Parses a decimal number at `i`: the whole digit run, failing on an empty
/// run or a value beyond 32 bits.
#[verifier::opaque]
pub open spec fn parse_u32(s: Seq<u8>, i: int) -> Option<(u32, int)> {
    let j = scan_digits(s, i);
    if j == i {
        None
    } else if digits_val(s, i, j) <= 0xffff_ffff {
        Some((digits_val(s, i, j) as u32, j))
    } else {
        None
    }
}

/// Scanning a digit run ends at its first non-digit.
pub proof fn lemma_scan_digits_run(s: Seq<u8>, i: int, j: int)
    requires
        0 <= i <= j <= s.len(),
        forall|k: int| i <= k < j ==> is_digit(#[trigger] s[k]),
        j == s.len() || !is_digit(s[j]),
    ensures
        scan_digits(s, i) == j,
    decreases j - i,
{
    reveal(scan_digits);
    if i < j {
        lemma_scan_digits_run(s, i + 1, j);
    }
}

/// The value of a printed number's digits is that number.
pub proof fn lemma_digits_val_of_dec(s: Seq<u8>, i: int, n: nat)
    requires
        0 <= i,
        i + dec_digits(n).len() <= s.len(),
        s.subrange(i, i + dec_digits(n).len()) == dec_digits(n),
    ensures
        digits_val(s, i, i + dec_digits(n).len()) == n,
    decreases n,
{
    reveal(digits_val);
    let d = dec_digits(n);
    let j = i + d.len();
    assert(forall|k: int| 0 <= k < d.len() ==> s[i + k] == #[trigger] d[k]) by {
        assert(forall|k: int|
            0 <= k < d.len() ==> #[trigger] d[k] == s.subrange(i, i + d.len())[k]);
    }
    if n < 10 {
        assert(d[0] == (B_ZERO + n) as u8);
        assert(s[i + 0] == d[0]);
        assert(digits_val(s, i, i) == 0);
        assert(digits_val(s, i, i + 1) == digits_val(s, i, i) * 10 + (s[i] - B_ZERO));
    } else {
        let dd = dec_digits(n / 10);
        assert(d == dd.push((B_ZERO + n % 10) as u8));
        assert(s.subrange(i, i + dd.len()) =~= dd) by {
            assert(forall|k: int| 0 <= k < dd.len() ==> #[trigger] dd[k] == d[k]);
        }
        lemma_digits_val_of_dec(s, i, n / 10);
        assert(s[j - 1] == d[d.len() - 1]);
        assert(d[d.len() - 1] == (B_ZERO + n % 10) as u8);
        assert(digits_val(s, i, j) == digits_val(s, i, j - 1) * 10 + (s[j - 1] - B_ZERO));
        assert(n / 10 * 10 + n % 10 == n) by {
            vstd::arithmetic::div_mod::lemma_fundamental_div_mod(n as int, 10);
        }
    }
}

/// Parsing inverts printing for 32-bit numbers.
pub proof fn lemma_parse_u32_of_dec(s: Seq<u8>, i: int, n: u32)
    requires
        0 <= i,
        i + dec_digits(n as nat).len() <= s.len(),
        s.subrange(i, i + dec_digits(n as nat).len()) == dec_digits(n as nat),
        i + dec_digits(n as nat).len() == s.len() || !is_digit(s[i + dec_digits(n as nat).len()]),
    ensures
        parse_u32(s, i) == Some((n, i + dec_digits(n as nat).len())),
{
    reveal(parse_u32);
    let d = dec_digits(n as nat);
    let j = i + d.len();
    lemma_dec_digits_are_digits(n as nat);
    assert(forall|k: int| i <= k < j ==> is_digit(#[trigger] s[k])) by {
        assert(forall|k: int|
            0 <= k < d.len() ==> #[trigger] d[k] == s.subrange(i, i + d.len())[k]);
        assert(forall|k: int| i <= k < j ==> s[k] == d[k - i]);
    }
    lemma_scan_digits_run(s, i, j);
    lemma_digits_val_of_dec(s, i, n as nat);
}

/// The first position at or after `i` whose byte cannot stand in a name.
#[verifier::opaque]
pub open spec fn scan_name(s: Seq<u8>, i: int) -> int
    decreases s.len() - i,
{
    if 0 <= i < s.len() && name_byte(s[i]) {
        scan_name(s, i + 1)
    } else {
        i
    }
}

/// Scanning a name ends at its first delimiter.
pub proof fn lemma_scan_name_run(s: Seq<u8>, i: int, j: int)
    requires
        0 <= i <= j <= s.len(),
        forall|k: int| i <= k < j ==> name_byte(#[trigger] s[k]),
        j == s.len() || !name_byte(s[j]),
    ensures
        scan_name(s, i) == j,
    decreases j - i,
{
    reveal(scan_name);
    if i < j {
        lemma_scan_name_run(s, i + 1, j);
    }
}

/// Matches an exact byte sequence at `i`.
pub open spec fn parse_lit(s: Seq<u8>, i: int, lit: Seq<u8>) -> Option<int> {
    if 0 <= i && i + lit.len() <= s.len() && s.subrange(i, i + lit.len()) == lit {
        Some(i + lit.len())
    } else {
        None
    }
}

/// "\r\n"
pub open spec fn lit_crlf() -> Seq<u8> {
    seq![B_CR, B_LF]
}

/// The wire form of a peer record: `(key,address)`.
pub open spec fn enc_peer(p: (Key, Seq<u8>)) -> Seq<u8> {
    seq![B_LPAR] + dec_digits(p.0.key as nat) + seq![B_COMMA] + p.1 + seq![B_RPAR]
}

/// Parses a peer record at `i`.
#[verifier::opaque]
pub open spec fn parse_peer(s: Seq<u8>, i: int) -> Option<((Key, Seq<u8>), int)> {
    if 0 <= i < s.len() && s[i] == B_LPAR {
        match parse_u32(s, i + 1) {
            Some((k, j)) => {
                if 0 <= j < s.len() && s[j] == B_COMMA {
                    let e = scan_name(s, j + 1);
                    if e < s.len() && s[e] == B_RPAR {
                        Some(((Key { key: k }, s.subrange(j + 1, e)), e + 1))
                    } else {
                        None
                    }
                } else {
                    None
                }
            },
            None => None,
        }
    } else {
        None
    }
}

/// Parsing inverts printing for peer records.
pub proof fn lemma_parse_peer(s: Seq<u8>, i: int, p: (Key, Seq<u8>))
    requires
        wf_name(p.1),
        0 <= i,
        i + enc_peer(p).len() <= s.len(),
        s.subrange(i, i + enc_peer(p).len()) == enc_peer(p),
    ensures
        parse_peer(s, i) == Some((p, i + enc_peer(p).len())),
{
    reveal(parse_peer);
    let d = dec_digits(p.0.key as nat);
    let ep = enc_peer(p);
    lemma_dec_digits_are_digits(p.0.key as nat);
    assert(ep.len() == d.len() + p.1.len() + 3);
    assert(forall|k: int| 0 <= k < ep.len() ==> s[i + k] == #[trigger] ep[k]) by {
        assert(forall|k: int|
            0 <= k < ep.len() ==> #[trigger] ep[k] == s.subrange(i, i + ep.len())[k]);
    }
    assert(ep[0] == B_LPAR);
    assert(s[i] == B_LPAR);
    let j = i + 1 + d.len();
    assert(forall|k: int| 0 <= k < d.len() ==> #[trigger] ep[1 + k] == d[k]);
    assert forall|k: int| 0 <= k < d.len() implies s.subrange(i + 1, j)[k] == d[k] by {
        assert(s[i + 1 + k] == ep[1 + k]);
    }
    assert(s.subrange(i + 1, j) =~= d);
    assert(ep[1 + d.len() as int] == B_COMMA);
    assert(s[j] == B_COMMA);
    assert(!is_digit(B_COMMA));
    lemma_parse_u32_of_dec(s, i + 1, p.0.key);
    assert(parse_u32(s, i + 1) == Some((p.0.key, j)));
    let e = j + 1 + p.1.len();
    assert(forall|k: int| 0 <= k < p.1.len() ==> #[trigger] ep[2 + d.len() + k] == p.1[k]);
    assert forall|k: int| j + 1 <= k < e implies name_byte(#[trigger] s[k]) by {
        assert(s[k] == ep[k - i]);
        assert(ep[k - i] == p.1[k - (j + 1)]);
    }
    assert(ep[ep.len() - 1] == B_RPAR);
    assert(s[e] == B_RPAR);
    assert(!name_byte(B_RPAR));
    lemma_scan_name_run(s, j + 1, e);
    assert forall|k: int| 0 <= k < p.1.len() implies s.subrange(j + 1, e)[k] == p.1[k] by {
        assert(s[j + 1 + k] == ep[2 + d.len() + k]);
        assert(ep[2 + d.len() + k] == p.1[k]);
    }
    assert(s.subrange(j + 1, e) =~= p.1);
    assert(Key { key: p.0.key } == p.0);
    assert(e + 1 == i + ep.len());
}

/// The wire form of a peer list: each record followed by one space.
pub open spec fn enc_peer_list(l: Seq<(Key, Seq<u8>)>) -> Seq<u8>
    decreases l.len(),
{
    if l.len() == 0 {
        Seq::empty()
    } else {
        enc_peer(l[0]) + seq![B_SPACE] + enc_peer_list(l.drop_first())
    }
}

/// Appending a record appends its wire form.
pub proof fn lemma_enc_peer_list_push(l: Seq<(Key, Seq<u8>)>, x: (Key, Seq<u8>))
    ensures
        enc_peer_list(l.push(x)) == enc_peer_list(l) + enc_peer(x) + seq![B_SPACE],
    decreases l.len(),
{
    let lp = l.push(x);
    if l.len() == 0 {
        assert(lp[0] == x);
        assert(lp.drop_first() =~= Seq::<(Key, Seq<u8>)>::empty());
        assert(enc_peer_list(lp.drop_first()) == Seq::<u8>::empty());
        assert(enc_peer_list(lp) == enc_peer(x) + seq![B_SPACE] + Seq::<u8>::empty());
        assert(enc_peer_list(lp) =~= enc_peer_list(l) + enc_peer(x) + seq![B_SPACE]);
    } else {
        assert(lp.drop_first() =~= l.drop_first().push(x));
        lemma_enc_peer_list_push(l.drop_first(), x);
        assert(lp[0] == l[0]);
        assert(enc_peer_list(lp) == enc_peer(l[0]) + seq![B_SPACE] + (enc_peer_list(l.drop_first()) + enc_peer(x)
            + seq![B_SPACE]));
        assert(enc_peer_list(l) == enc_peer(l[0]) + seq![B_SPACE] + enc_peer_list(l.drop_first()));
        assert(enc_peer_list(lp) =~= enc_peer_list(l) + enc_peer(x) + seq![B_SPACE]);
    }
}

/// Parses a peer list at `i`, ending before the line's CR.
#[verifier::opaque]
pub open spec fn parse_peer_list(s: Seq<u8>, i: int) -> Option<(Seq<(Key, Seq<u8>)>, int)>
    decreases s.len() - i,
{
    if i < 0 || i >= s.len() {
        None
    } else if s[i] == B_CR {
        Some((Seq::empty(), i))
    } else {
        match parse_peer(s, i) {
            Some((p, j)) => {
                if i < j && j < s.len() && s[j] == B_SPACE {
                    match parse_peer_list(s, j + 1) {
                        Some((rest, e)) => Some((seq![p] + rest, e)),
                        None => None,
                    }
                } else {
                    None
                }
            },
            None => None,
        }
    }
}

/// Parsing inverts printing for peer lists.
pub proof fn lemma_parse_peer_list(s: Seq<u8>, i: int, l: Seq<(Key, Seq<u8>)>)
    requires
        forall|x: int| 0 <= x < l.len() ==> wf_name((#[trigger] l[x]).1),
        0 <= i,
        i + enc_peer_list(l).len() < s.len(),
        s.subrange(i, i + enc_peer_list(l).len()) == enc_peer_list(l),
        s[i + enc_peer_list(l).len()] == B_CR,
    ensures
        parse_peer_list(s, i) == Some((l, i + enc_peer_list(l).len())),
    decreases l.len(),
{
    reveal(parse_peer_list);
    let el = enc_peer_list(l);
    assert(forall|k: int| 0 <= k < el.len() ==> s[i + k] == #[trigger] el[k]) by {
        assert(forall|k: int|
            0 <= k < el.len() ==> #[trigger] el[k] == s.subrange(i, i + el.len())[k]);
    }
    if l.len() == 0 {
        assert(s[i] == B_CR);
    } else {
        let ep = enc_peer(l[0]);
        lemma_dec_digits_are_digits(l[0].0.key as nat);
        assert(el == ep + seq![B_SPACE] + enc_peer_list(l.drop_first()));
        assert(forall|k: int| 0 <= k < ep.len() ==> #[trigger] el[k] == ep[k]);
        assert(ep[0] == B_LPAR);
        assert(el[0] == B_LPAR);
        assert(s[i + 0] == el[0]);
        assert(s[i] != B_CR);
        assert forall|k: int| 0 <= k < ep.len() implies s.subrange(i, i + ep.len())[k] == ep[k] by {
            assert(s[i + k] == el[k]);
            assert(el[k] == ep[k]);
        }
        assert(s.subrange(i, i + ep.len()) =~= ep);
        lemma_parse_peer(s, i, l[0]);
        let j = i + ep.len();
        assert(el[ep.len() as int] == B_SPACE);
        assert(s[j] == B_SPACE);
        let rest = l.drop_first();
        let erest = enc_peer_list(rest);
        assert(forall|k: int| 0 <= k < erest.len() ==> #[trigger] el[ep.len() + 1 + k] == erest[k]);
        assert forall|k: int| 0 <= k < erest.len() implies s.subrange(j + 1, j + 1 + erest.len())[k]
            == erest[k] by {
            assert(s[j + 1 + k] == el[ep.len() + 1 + k]);
            assert(el[ep.len() + 1 + k] == erest[k]);
        }
        assert(s.subrange(j + 1, j + 1 + erest.len()) =~= erest);
        assert(forall|x: int| 0 <= x < rest.len() ==> wf_name((#[trigger] rest[x]).1)) by {
            assert(forall|x: int| 0 <= x < rest.len() ==> #[trigger] rest[x] == l[x + 1]);
        }
        assert(j + 1 + erest.len() == i + el.len());
        lemma_parse_peer_list(s, j + 1, rest);
        assert(seq![l[0]] + rest =~= l);
    }
}

/// The wire form of a provider entry: `(name,key)`.
pub open spec fn enc_prov(e: (Seq<u8>, Key)) -> Seq<u8> {
    seq![B_LPAR] + e.0 + seq![B_COMMA] + dec_digits(e.1.key as nat) + seq![B_RPAR]
}

/// Parses a provider entry at `i`.
#[verifier::opaque]
pub open spec fn parse_prov(s: Seq<u8>, i: int) -> Option<((Seq<u8>, Key), int)> {
    if 0 <= i < s.len() && s[i] == B_LPAR {
        let e = scan_name(s, i + 1);
        if 0 <= i + 1 <= e && e < s.len() && s[e] == B_COMMA {
            match parse_u32(s, e + 1) {
                Some((k, j)) => {
                    if j < s.len() && s[j] == B_RPAR {
                        Some(((s.subrange(i + 1, e), Key { key: k }), j + 1))
                    } else {
                        None
                    }
                },
                None => None,
            }
        } else {
            None
        }
    } else {
        None
    }
}

/// Parsing inverts printing for provider entries.
pub proof fn lemma_parse_prov(s: Seq<u8>, i: int, p: (Seq<u8>, Key))
    requires
        wf_name(p.0),
        0 <= i,
        i + enc_prov(p).len() <= s.len(),
        s.subrange(i, i + enc_prov(p).len()) == enc_prov(p),
    ensures
        parse_prov(s, i) == Some((p, i + enc_prov(p).len())),
{
    reveal(parse_prov);
    let d = dec_digits(p.1.key as nat);
    let ep = enc_prov(p);
    lemma_dec_digits_are_digits(p.1.key as nat);
    assert(ep.len() == d.len() + p.0.len() + 3);
    assert(forall|k: int| 0 <= k < ep.len() ==> s[i + k] == #[trigger] ep[k]) by {
        assert(forall|k: int|
            0 <= k < ep.len() ==> #[trigger] ep[k] == s.subrange(i, i + ep.len())[k]);
    }
    assert(ep[0] == B_LPAR);
    assert(s[i] == B_LPAR);
    let e = i + 1 + p.0.len();
    assert(forall|k: int| 0 <= k < p.0.len() ==> #[trigger] ep[1 + k] == p.0[k]);
    assert forall|k: int| i + 1 <= k < e implies name_byte(#[trigger] s[k]) by {
        assert(s[k] == ep[k - i]);
        assert(ep[k - i] == p.0[k - (i + 1)]);
    }
    assert(ep[1 + p.0.len() as int] == B_COMMA);
    assert(s[e] == B_COMMA);
    assert(!name_byte(B_COMMA));
    lemma_scan_name_run(s, i + 1, e);
    assert forall|k: int| 0 <= k < p.0.len() implies s.subrange(i + 1, e)[k] == p.0[k] by {
        assert(s[i + 1 + k] == ep[1 + k]);
        assert(ep[1 + k] == p.0[k]);
    }
    assert(s.subrange(i + 1, e) =~= p.0);
    let j = e + 1 + d.len();
    assert(forall|k: int| 0 <= k < d.len() ==> #[trigger] ep[2 + p.0.len() + k] == d[k]);
    assert forall|k: int| 0 <= k < d.len() implies s.subrange(e + 1, j)[k] == d[k] by {
        assert(s[e + 1 + k] == ep[2 + p.0.len() + k]);
        assert(ep[2 + p.0.len() + k] == d[k]);
    }
    assert(s.subrange(e + 1, j) =~= d);
    assert(ep[ep.len() - 1] == B_RPAR);
    assert(s[j] == B_RPAR);
    assert(!is_digit(B_RPAR));
    lemma_parse_u32_of_dec(s, e + 1, p.1.key);
    assert(Key { key: p.1.key } == p.1);
    assert(j + 1 == i + ep.len());
}

/// The wire form of a provider list: each entry followed by one space.
pub open spec fn enc_prov_list(l: Seq<(Seq<u8>, Key)>) -> Seq<u8>
    decreases l.len(),
{
    if l.len() == 0 {
        Seq::empty()
    } else {
        enc_prov(l[0]) + seq![B_SPACE] + enc_prov_list(l.drop_first())
    }
}

/// Appending an entry appends its wire form.
pub proof fn lemma_enc_prov_list_push(l: Seq<(Seq<u8>, Key)>, x: (Seq<u8>, Key))
    ensures
        enc_prov_list(l.push(x)) == enc_prov_list(l) + enc_prov(x) + seq![B_SPACE],
    decreases l.len(),
{
    let lp = l.push(x);
    if l.len() == 0 {
        assert(lp[0] == x);
        assert(lp.drop_first() =~= Seq::<(Seq<u8>, Key)>::empty());
        assert(enc_prov_list(lp.drop_first()) == Seq::<u8>::empty());
        assert(enc_prov_list(lp) == enc_prov(x) + seq![B_SPACE] + Seq::<u8>::empty());
        assert(enc_prov_list(lp) =~= enc_prov_list(l) + enc_prov(x) + seq![B_SPACE]);
    } else {
        assert(lp.drop_first() =~= l.drop_first().push(x));
        lemma_enc_prov_list_push(l.drop_first(), x);
        assert(lp[0] == l[0]);
        assert(enc_prov_list(lp) == enc_prov(l[0]) + seq![B_SPACE] + (enc_prov_list(l.drop_first()) + enc_prov(x)
            + seq![B_SPACE]));
        assert(enc_prov_list(l) == enc_prov(l[0]) + seq![B_SPACE] + enc_prov_list(l.drop_first()));
        assert(enc_prov_list(lp) =~= enc_prov_list(l) + enc_prov(x) + seq![B_SPACE]);
    }
}

/// Parses a provider list at `i`, ending before the line's CR.
#[verifier::opaque]
pub open spec fn parse_prov_list(s: Seq<u8>, i: int) -> Option<(Seq<(Seq<u8>, Key)>, int)>
    decreases s.len() - i,
{
    if i < 0 || i >= s.len() {
        None
    } else if s[i] == B_CR {
        Some((Seq::empty(), i))
    } else {
        match parse_prov(s, i) {
            Some((p, j)) => {
                if i < j && j < s.len() && s[j] == B_SPACE {
                    match parse_prov_list(s, j + 1) {
                        Some((rest, e)) => Some((seq![p] + rest, e)),
                        None => None,
                    }
                } else {
                    None
                }
            },
            None => None,
        }
    }
}

/// Parsing inverts printing for provider lists.
pub proof fn lemma_parse_prov_list(s: Seq<u8>, i: int, l: Seq<(Seq<u8>, Key)>)
    requires
        forall|x: int| 0 <= x < l.len() ==> wf_name((#[trigger] l[x]).0),
        0 <= i,
        i + enc_prov_list(l).len() < s.len(),
        s.subrange(i, i + enc_prov_list(l).len()) == enc_prov_list(l),
        s[i + enc_prov_list(l).len()] == B_CR,
    ensures
        parse_prov_list(s, i) == Some((l, i + enc_prov_list(l).len())),
    decreases l.len(),
{
    reveal(parse_prov_list);
    let el = enc_prov_list(l);
    assert(forall|k: int| 0 <= k < el.len() ==> s[i + k] == #[trigger] el[k]) by {
        assert(forall|k: int|
            0 <= k < el.len() ==> #[trigger] el[k] == s.subrange(i, i + el.len())[k]);
    }
    if l.len() == 0 {
        assert(s[i] == B_CR);
    } else {
        let ep = enc_prov(l[0]);
        lemma_dec_digits_are_digits(l[0].1.key as nat);
        assert(el == ep + seq![B_SPACE] + enc_prov_list(l.drop_first()));
        assert(forall|k: int| 0 <= k < ep.len() ==> #[trigger] el[k] == ep[k]);
        assert(ep[0] == B_LPAR);
        assert(el[0] == B_LPAR);
        assert(s[i + 0] == el[0]);
        assert(s[i] != B_CR);
        assert forall|k: int| 0 <= k < ep.len() implies s.subrange(i, i + ep.len())[k] == ep[k] by {
            assert(s[i + k] == el[k]);
            assert(el[k] == ep[k]);
        }
        assert(s.subrange(i, i + ep.len()) =~= ep);
        lemma_parse_prov(s, i, l[0]);
        let j = i + ep.len();
        assert(el[ep.len() as int] == B_SPACE);
        assert(s[j] == B_SPACE);
        let rest = l.drop_first();
        let erest = enc_prov_list(rest);
        assert(forall|k: int| 0 <= k < erest.len() ==> #[trigger] el[ep.len() + 1 + k] == erest[k]);
        assert forall|k: int| 0 <= k < erest.len() implies s.subrange(j + 1, j + 1 + erest.len())[k]
            == erest[k] by {
            assert(s[j + 1 + k] == el[ep.len() + 1 + k]);
            assert(el[ep.len() + 1 + k] == erest[k]);
        }
        assert(s.subrange(j + 1, j + 1 + erest.len()) =~= erest);
        assert(forall|x: int| 0 <= x < rest.len() ==> wf_name((#[trigger] rest[x]).0)) by {
            assert(forall|x: int| 0 <= x < rest.len() ==> #[trigger] rest[x] == l[x + 1]);
        }
        assert(j + 1 + erest.len() == i + el.len());
        lemma_parse_prov_list(s, j + 1, rest);
        assert(seq![l[0]] + rest =~= l);
    }
}

/// Splitting a concatenation at its seam gives the two halves back.
pub proof fn lemma_concat_split(a: Seq<u8>, b: Seq<u8>)
    ensures
        (a + b).len() == a.len() + b.len(),
        (a + b).subrange(0, a.len() as int) == a,
        (a + b).subrange(a.len() as int, (a.len() + b.len()) as int) == b,
{
    assert((a + b).subrange(0, a.len() as int) =~= a);
    assert((a + b).subrange(a.len() as int, (a.len() + b.len()) as int) =~= b);
}

/// A match of a whole carries over to a match of any of its parts.
pub proof fn lemma_subrange_of_match(s: Seq<u8>, i: int, w: Seq<u8>, o1: int, o2: int, piece: Seq<u8>)
    requires
        0 <= i,
        i + w.len() <= s.len(),
        s.subrange(i, i + w.len()) == w,
        0 <= o1 <= o2 <= w.len(),
        w.subrange(o1, o2) == piece,
    ensures
        s.subrange(i + o1, i + o2) == piece,
{
    assert forall|k: int| 0 <= k < o2 - o1 implies s.subrange(i + o1, i + o2)[k] == piece[k] by {
        assert(s[i + o1 + k] == s.subrange(i, i + w.len())[o1 + k]);
        assert(w[o1 + k] == w.subrange(o1, o2)[k]);
    }
    assert(s.subrange(i + o1, i + o2) =~= piece);
}

/// The wire form of the bytes inside the JSON array, after the first one.
pub open spec fn enc_byte_rest(v: Seq<u8>) -> Seq<u8>
    decreases v.len(),
{
    if v.len() == 0 {
        Seq::empty()
    } else {
        seq![B_COMMA] + dec_digits(v[0] as nat) + enc_byte_rest(v.drop_first())
    }
}

/// The wire form of the bytes inside the JSON array.
pub open spec fn enc_byte_list(v: Seq<u8>) -> Seq<u8> {
    if v.len() == 0 {
        Seq::empty()
    } else {
        dec_digits(v[0] as nat) + enc_byte_rest(v.drop_first())
    }
}

/// Appending a byte appends its wire form.
pub proof fn lemma_enc_byte_rest_push(v: Seq<u8>, b: u8)
    ensures
        enc_byte_rest(v.push(b)) == enc_byte_rest(v) + seq![B_COMMA] + dec_digits(b as nat),
    decreases v.len(),
{
    let vp = v.push(b);
    if v.len() == 0 {
        assert(vp[0] == b);
        assert(vp.drop_first() =~= Seq::<u8>::empty());
        assert(enc_byte_rest(vp.drop_first()) == Seq::<u8>::empty());
        assert(enc_byte_rest(vp) == seq![B_COMMA] + dec_digits(b as nat) + Seq::<u8>::empty());
        assert(enc_byte_rest(vp) =~= enc_byte_rest(v) + seq![B_COMMA] + dec_digits(b as nat));
    } else {
        assert(vp.drop_first() =~= v.drop_first().push(b));
        lemma_enc_byte_rest_push(v.drop_first(), b);
        assert(vp[0] == v[0]);
        assert(enc_byte_rest(vp) == seq![B_COMMA] + dec_digits(vp[0] as nat) + (enc_byte_rest(
            v.drop_first(),
        ) + seq![B_COMMA] + dec_digits(b as nat)));
        assert(enc_byte_rest(v) == seq![B_COMMA] + dec_digits(v[0] as nat) + enc_byte_rest(
            v.drop_first(),
        ));
        assert(enc_byte_rest(vp) =~= enc_byte_rest(v) + seq![B_COMMA] + dec_digits(b as nat));
    }
}

/// Appending a byte appends its wire form, with the comma only after a
/// first byte.
pub proof fn lemma_enc_byte_list_push(v: Seq<u8>, b: u8)
    ensures
        v.len() == 0 ==> enc_byte_list(v.push(b)) == dec_digits(b as nat),
        v.len() != 0 ==> enc_byte_list(v.push(b)) == enc_byte_list(v) + seq![B_COMMA] + dec_digits(
            b as nat,
        ),
{
    let vp = v.push(b);
    if v.len() == 0 {
        assert(vp[0] == b);
        assert(vp.drop_first() =~= Seq::<u8>::empty());
        assert(enc_byte_list(vp) =~= dec_digits(b as nat));
    } else {
        assert(vp[0] == v[0]);
        assert(vp.drop_first() =~= v.drop_first().push(b));
        lemma_enc_byte_rest_push(v.drop_first(), b);
        assert(enc_byte_list(vp) == dec_digits(vp[0] as nat) + (enc_byte_rest(v.drop_first())
            + seq![B_COMMA] + dec_digits(b as nat)));
        assert(enc_byte_list(v) == dec_digits(v[0] as nat) + enc_byte_rest(v.drop_first()));
        assert(enc_byte_list(vp) =~= enc_byte_list(v) + seq![B_COMMA] + dec_digits(b as nat));
    }
}

/// Parses the bytes of the JSON array after the first one, ending before
/// the closing bracket.
#[verifier::opaque]
pub open spec fn parse_byte_rest(s: Seq<u8>, i: int) -> Option<(Seq<u8>, int)>
    decreases s.len() - i,
{
    if i < 0 || i >= s.len() {
        None
    } else if s[i] == B_RBRACKET {
        Some((Seq::empty(), i))
    } else if s[i] == B_COMMA {
        match parse_u32(s, i + 1) {
            Some((b, j)) => {
                if b <= 255 && i + 1 < j && j <= s.len() {
                    match parse_byte_rest(s, j) {
                        Some((rest, e)) => Some((seq![b as u8] + rest, e)),
                        None => None,
                    }
                } else {
                    None
                }
            },
            None => None,
        }
    } else {
        None
    }
}

/// Parses the bytes of the JSON array, ending before the closing bracket.
#[verifier::opaque]
pub open spec fn parse_byte_list(s: Seq<u8>, i: int) -> Option<(Seq<u8>, int)> {
    if i < 0 || i >= s.len() {
        None
    } else if s[i] == B_RBRACKET {
        Some((Seq::empty(), i))
    } else {
        match parse_u32(s, i) {
            Some((b, j)) => {
                if b <= 255 {
                    match parse_byte_rest(s, j) {
                        Some((rest, e)) => Some((seq![b as u8] + rest, e)),
                        None => None,
                    }
                } else {
                    None
                }
            },
            None => None,
        }
    }
}

/// Parsing inverts printing for the array's later bytes.
pub proof fn lemma_parse_byte_rest(s: Seq<u8>, i: int, v: Seq<u8>)
    requires
        0 <= i,
        i + enc_byte_rest(v).len() < s.len(),
        s.subrange(i, i + enc_byte_rest(v).len()) == enc_byte_rest(v),
        s[i + enc_byte_rest(v).len()] == B_RBRACKET,
    ensures
        parse_byte_rest(s, i) == Some((v, i + enc_byte_rest(v).len())),
    decreases v.len(),
{
    reveal(parse_byte_rest);
    let ev = enc_byte_rest(v);
    assert(forall|k: int| 0 <= k < ev.len() ==> s[i + k] == #[trigger] ev[k]) by {
        assert(forall|k: int|
            0 <= k < ev.len() ==> #[trigger] ev[k] == s.subrange(i, i + ev.len())[k]);
    }
    if v.len() == 0 {
        assert(s[i] == B_RBRACKET);
    } else {
        let d = dec_digits(v[0] as nat);
        lemma_dec_digits_are_digits(v[0] as nat);
        let rest = v.drop_first();
        let erest = enc_byte_rest(rest);
        assert(ev == seq![B_COMMA] + d + erest);
        assert(ev[0] == B_COMMA);
        assert(s[i + 0] == ev[0]);
        assert(forall|k: int| 0 <= k < d.len() ==> #[trigger] ev[1 + k] == d[k]);
        let j = i + 1 + d.len();
        assert forall|k: int| 0 <= k < d.len() implies s.subrange(i + 1, j)[k] == d[k] by {
            assert(s[i + 1 + k] == ev[1 + k]);
        }
        assert(s.subrange(i + 1, j) =~= d);
        assert(forall|k: int| 0 <= k < erest.len() ==> #[trigger] ev[1 + d.len() + k] == erest[k]);
        if erest.len() == 0 {
            assert(s[j] == B_RBRACKET);
            assert(!is_digit(B_RBRACKET));
        } else {
            assert(erest[0] == B_COMMA) by {
                assert(rest.len() != 0);
            }
            assert(s[j] == ev[1 + d.len() as int]);
            assert(ev[1 + d.len() as int] == erest[0]);
            assert(!is_digit(B_COMMA));
        }
        lemma_parse_u32_of_dec(s, i + 1, v[0] as u32);
        assert forall|k: int| 0 <= k < erest.len() implies s.subrange(j, j + erest.len())[k]
            == erest[k] by {
            assert(s[j + k] == ev[1 + d.len() + k]);
        }
        assert(s.subrange(j, j + erest.len()) =~= erest);
        lemma_parse_byte_rest(s, j, rest);
        assert(seq![v[0]] + rest =~= v);
        assert((v[0] as u32) as u8 == v[0]);
    }
}

/// Parsing inverts printing for the array's bytes.
pub proof fn lemma_parse_byte_list(s: Seq<u8>, i: int, v: Seq<u8>)
    requires
        0 <= i,
        i + enc_byte_list(v).len() < s.len(),
        s.subrange(i, i + enc_byte_list(v).len()) == enc_byte_list(v),
        s[i + enc_byte_list(v).len()] == B_RBRACKET,
    ensures
        parse_byte_list(s, i) == Some((v, i + enc_byte_list(v).len())),
{
    reveal(parse_byte_list);
    let ev = enc_byte_list(v);
    assert(forall|k: int| 0 <= k < ev.len() ==> s[i + k] == #[trigger] ev[k]) by {
        assert(forall|k: int|
            0 <= k < ev.len() ==> #[trigger] ev[k] == s.subrange(i, i + ev.len())[k]);
    }
    if v.len() == 0 {
        assert(s[i] == B_RBRACKET);
    } else {
        let d = dec_digits(v[0] as nat);
        lemma_dec_digits_are_digits(v[0] as nat);
        let rest = v.drop_first();
        let erest = enc_byte_rest(rest);
        assert(ev == d + erest);
        assert(forall|k: int| 0 <= k < d.len() ==> #[trigger] ev[k] == d[k]);
        assert(ev[0] == d[0]);
        assert(s[i + 0] == ev[0]);
        assert(is_digit(d[0]));
        assert(s[i] != B_RBRACKET);
        let j = i + d.len();
        assert forall|k: int| 0 <= k < d.len() implies s.subrange(i, j)[k] == d[k] by {
            assert(s[i + k] == ev[k]);
        }
        assert(s.subrange(i, j) =~= d);
        assert(forall|k: int| 0 <= k < erest.len() ==> #[trigger] ev[d.len() + k] == erest[k]);
        if erest.len() == 0 {
            assert(s[j] == B_RBRACKET);
            assert(!is_digit(B_RBRACKET));
        } else {
            assert(erest[0] == B_COMMA) by {
                assert(rest.len() != 0);
            }
            assert(s[j] == ev[d.len() as int]);
            assert(ev[d.len() as int] == erest[0]);
            assert(!is_digit(B_COMMA));
        }
        lemma_parse_u32_of_dec(s, i, v[0] as u32);
        assert forall|k: int| 0 <= k < erest.len() implies s.subrange(j, j + erest.len())[k]
            == erest[k] by {
            assert(s[j + k] == ev[d.len() + k]);
        }
        assert(s.subrange(j, j + erest.len()) =~= erest);
        lemma_parse_byte_rest(s, j, rest);
        assert(seq![v[0]] + rest =~= v);
        assert((v[0] as u32) as u8 == v[0]);
    }
}


/// The wire form of a content payload: one JSON object line.
pub open spec fn lit_json_id() -> Seq<u8> {
    seq![0x7bu8, 0x22, 0x69, 0x64, 0x22, 0x3a]
}

/// `,"vec":[`
pub open spec fn lit_json_vec() -> Seq<u8> {
    seq![0x2cu8, 0x22, 0x76, 0x65, 0x63, 0x22, 0x3a, 0x5b]
}

/// `],"filename":"`
pub open spec fn lit_json_filename() -> Seq<u8> {
    seq![0x5du8, 0x2c, 0x22, 0x66, 0x69, 0x6c, 0x65, 0x6e, 0x61, 0x6d, 0x65, 0x22, 0x3a, 0x22]
}

/// `"}`
pub open spec fn lit_json_end() -> Seq<u8> {
    seq![0x22u8, 0x7d]
}

/// The JSON line that carries a content payload.
pub open spec fn enc_data(d: DataModel) -> Seq<u8> {
    lit_json_id() + dec_digits(d.id as nat) + lit_json_vec() + enc_byte_list(d.vec)
        + lit_json_filename() + d.filename + lit_json_end()
}

/// Parses a content payload at `i`.
#[verifier::opaque]
pub open spec fn parse_data(s: Seq<u8>, i: int) -> Option<(DataModel, int)> {
    match parse_lit(s, i, lit_json_id()) {
        Some(i1) => match parse_u32(s, i1) {
            Some((id, i2)) => match parse_lit(s, i2, lit_json_vec()) {
                Some(i3) => match parse_byte_list(s, i3) {
                    Some((vec, i4)) => match parse_lit(s, i4, lit_json_filename()) {
                        Some(i5) => {
                            let e = scan_name(s, i5);
                            match parse_lit(s, e, lit_json_end()) {
                                Some(i6) => Some(
                                    (DataModel { id, vec, filename: s.subrange(i5, e) }, i6),
                                ),
                                None => None,
                            }
                        },
                        None => None,
                    },
                    None => None,
                },
                None => None,
            },
            None => None,
        },
        None => None,
    }
}

/// Parsing inverts printing for content payloads.
#[verifier::rlimit(50)]
pub proof fn lemma_parse_data(s: Seq<u8>, i: int, d: DataModel)
    requires
        wf_name(d.filename),
        0 <= i,
        i + enc_data(d).len() <= s.len(),
        s.subrange(i, i + enc_data(d).len()) == enc_data(d),
    ensures
        parse_data(s, i) == Some((d, i + enc_data(d).len())),
{
    reveal(parse_data);
    let dd = dec_digits(d.id as nat);
    let bl = enc_byte_list(d.vec);
    let w1 = lit_json_id() + dd;
    let w2 = w1 + lit_json_vec();
    let w3 = w2 + bl;
    let w4 = w3 + lit_json_filename();
    let w5 = w4 + d.filename;
    let w = w5 + lit_json_end();
    assert(w == enc_data(d));
    lemma_dec_digits_are_digits(d.id as nat);
    // carve the pieces of the payload out of s
    lemma_concat_split(w5, lit_json_end());
    lemma_subrange_of_match(s, i, w, 0, w5.len() as int, w5);
    lemma_subrange_of_match(s, i, w, w5.len() as int, w.len() as int, lit_json_end());
    lemma_concat_split(w4, d.filename);
    lemma_subrange_of_match(s, i, w5, 0, w4.len() as int, w4);
    lemma_subrange_of_match(s, i, w5, w4.len() as int, w5.len() as int, d.filename);
    lemma_concat_split(w3, lit_json_filename());
    lemma_subrange_of_match(s, i, w4, 0, w3.len() as int, w3);
    lemma_subrange_of_match(s, i, w4, w3.len() as int, w4.len() as int, lit_json_filename());
    lemma_concat_split(w2, bl);
    lemma_subrange_of_match(s, i, w3, 0, w2.len() as int, w2);
    lemma_subrange_of_match(s, i, w3, w2.len() as int, w3.len() as int, bl);
    lemma_concat_split(w1, lit_json_vec());
    lemma_subrange_of_match(s, i, w2, 0, w1.len() as int, w1);
    lemma_subrange_of_match(s, i, w2, w1.len() as int, w2.len() as int, lit_json_vec());
    lemma_concat_split(lit_json_id(), dd);
    lemma_subrange_of_match(s, i, w1, 0, 6, lit_json_id());
    lemma_subrange_of_match(s, i, w1, 6, w1.len() as int, dd);
    // walk the parse
    let i1 = i + 6;
    assert(parse_lit(s, i, lit_json_id()) == Some(i1));
    let i2 = i1 + dd.len();
    assert(s[i2] == lit_json_vec()[0]) by {
        assert(s.subrange(i + w1.len(), i + w2.len())[0] == lit_json_vec()[0]);
    }
    assert(!is_digit(lit_json_vec()[0]));
    lemma_parse_u32_of_dec(s, i1, d.id);
    let i3 = i2 + lit_json_vec().len();
    assert(parse_lit(s, i2, lit_json_vec()) == Some(i3));
    let i4 = i3 + bl.len();
    assert(s[i4] == lit_json_filename()[0]) by {
        assert(s.subrange(i + w3.len(), i + w4.len())[0] == lit_json_filename()[0]);
    }
    assert(lit_json_filename()[0] == B_RBRACKET);
    lemma_parse_byte_list(s, i3, d.vec);
    let i5 = i4 + lit_json_filename().len();
    assert(parse_lit(s, i4, lit_json_filename()) == Some(i5));
    let e = i5 + d.filename.len();
    assert(s[e] == lit_json_end()[0]) by {
        assert(s.subrange(i + w5.len(), i + w.len())[0] == lit_json_end()[0]);
    }
    assert(lit_json_end()[0] == B_QUOTE);
    assert(!name_byte(B_QUOTE));
    assert forall|k: int| i5 <= k < e implies name_byte(#[trigger] s[k]) by {
        assert(s.subrange(i + w4.len(), i + w5.len())[k - i5] == d.filename[k - i5]);
    }
    lemma_scan_name_run(s, i5, e);
    assert(s.subrange(i5, e) == d.filename);
    let i6 = e + 2;
    assert(parse_lit(s, e, lit_json_end()) == Some(i6));
    assert(i6 == i + enc_data(d).len());
    assert(DataModel { id: d.id, vec: d.vec, filename: s.subrange(i5, e) } == d);
}

/// The line tag of each message type.
pub open spec fn token_of(t: MsgType) -> Seq<u8> {
    match t {
        MsgType::Init => seq![0x49u8, 0x4e, 0x49, 0x54],
        MsgType::PeersI => seq![0x50u8, 0x45, 0x45, 0x52, 0x53, 0x5f, 0x49],
        MsgType::PeersR => seq![0x50u8, 0x45, 0x45, 0x52, 0x53, 0x5f, 0x52],
        MsgType::PeersIGet => seq![
            0x50u8,
            0x45,
            0x45,
            0x52,
            0x53,
            0x5f,
            0x49,
            0x5f,
            0x47,
            0x45,
            0x54,
        ],
        MsgType::PeersRGet => seq![
            0x50u8,
            0x45,
            0x45,
            0x52,
            0x53,
            0x5f,
            0x52,
            0x5f,
            0x47,
            0x45,
            0x54,
        ],
        MsgType::ProviderGet => seq![
            0x50u8,
            0x52,
            0x4f,
            0x56,
            0x49,
            0x44,
            0x45,
            0x52,
            0x5f,
            0x47,
            0x45,
            0x54,
        ],
        MsgType::ProvidersGetReply => seq![
            0x50u8,
            0x52,
            0x4f,
            0x56,
            0x49,
            0x44,
            0x45,
            0x52,
            0x53,
            0x5f,
            0x47,
            0x45,
            0x54,
            0x5f,
            0x52,
            0x45,
            0x50,
            0x4c,
            0x59,
        ],
        MsgType::Ping => seq![0x50u8, 0x49, 0x4e, 0x47],
        MsgType::Insert => seq![0x49u8, 0x4e, 0x53, 0x45, 0x52, 0x54],
    }
}

/// The message type that a line tag names.
pub open spec fn type_of_token(tok: Seq<u8>) -> Option<MsgType> {
    if tok == token_of(MsgType::Init) {
        Some(MsgType::Init)
    } else if tok == token_of(MsgType::PeersI) {
        Some(MsgType::PeersI)
    } else if tok == token_of(MsgType::PeersR) {
        Some(MsgType::PeersR)
    } else if tok == token_of(MsgType::PeersIGet) {
        Some(MsgType::PeersIGet)
    } else if tok == token_of(MsgType::PeersRGet) {
        Some(MsgType::PeersRGet)
    } else if tok == token_of(MsgType::ProviderGet) {
        Some(MsgType::ProviderGet)
    } else if tok == token_of(MsgType::ProvidersGetReply) {
        Some(MsgType::ProvidersGetReply)
    } else if tok == token_of(MsgType::Ping) {
        Some(MsgType::Ping)
    } else if tok == token_of(MsgType::Insert) {
        Some(MsgType::Insert)
    } else {
        None
    }
}

/// Every line tag is non-empty, holds only name bytes, and names its own
/// message type back.
pub proof fn lemma_token_facts(t: MsgType)
    ensures
        1 <= token_of(t).len(),
        forall|i: int| 0 <= i < token_of(t).len() ==> name_byte(#[trigger] token_of(t)[i]),
        type_of_token(token_of(t)) == Some(t),
{
    assert(token_of(MsgType::Init).len() == 4);
    assert(token_of(MsgType::PeersI).len() == 7);
    assert(token_of(MsgType::PeersR).len() == 7);
    assert(token_of(MsgType::PeersIGet).len() == 11);
    assert(token_of(MsgType::PeersRGet).len() == 11);
    assert(token_of(MsgType::ProviderGet).len() == 12);
    assert(token_of(MsgType::ProvidersGetReply).len() == 19);
    assert(token_of(MsgType::Ping).len() == 4);
    assert(token_of(MsgType::Insert).len() == 6);
    assert(forall|i: int| 0 <= i < token_of(t).len() ==> name_byte(#[trigger] token_of(t)[i]));
    match t {
        MsgType::Init => {
        },
        MsgType::PeersI => {
        },
        MsgType::PeersR => {
            assert(token_of(MsgType::PeersR)[6] != token_of(MsgType::PeersI)[6]);
        },
        MsgType::PeersIGet => {
        },
        MsgType::PeersRGet => {
            assert(token_of(MsgType::PeersRGet)[6] != token_of(MsgType::PeersIGet)[6]);
        },
        MsgType::ProviderGet => {
        },
        MsgType::ProvidersGetReply => {
        },
        MsgType::Ping => {
            assert(token_of(MsgType::Ping)[0] != token_of(MsgType::Init)[0]);
        },
        MsgType::Insert => {
        },
    }
}

/// `P2P/1.0 `
pub open spec fn lit_magic() -> Seq<u8> {
    seq![0x50u8, 0x32, 0x50, 0x2f, 0x31, 0x2e, 0x30, 0x20]
}

/// `FROM- `
pub open spec fn lit_from() -> Seq<u8> {
    seq![0x46u8, 0x52, 0x4f, 0x4d, 0x2d, 0x20]
}

/// `TO- `
pub open spec fn lit_to() -> Seq<u8> {
    seq![0x54u8, 0x4f, 0x2d, 0x20]
}

/// `KEYS- `
pub open spec fn lit_keys() -> Seq<u8> {
    seq![0x4bu8, 0x45, 0x59, 0x53, 0x2d, 0x20]
}

/// `PROVIDERS- `
pub open spec fn lit_providers() -> Seq<u8> {
    seq![0x50u8, 0x52, 0x4f, 0x56, 0x49, 0x44, 0x45, 0x52, 0x53, 0x2d, 0x20]
}

/// `PROVIDER- `
pub open spec fn lit_provider() -> Seq<u8> {
    seq![0x50u8, 0x52, 0x4f, 0x56, 0x49, 0x44, 0x45, 0x52, 0x2d, 0x20]
}

/// `DATA_KEY- `
pub open spec fn lit_data_key() -> Seq<u8> {
    seq![0x44u8, 0x41, 0x54, 0x41, 0x5f, 0x4b, 0x45, 0x59, 0x2d, 0x20]
}

/// The three header lines that open every frame.
pub open spec fn enc_hdr(m: MessageModel) -> Seq<u8> {
    lit_magic() + token_of(m.type_of) + lit_crlf() + lit_from() + enc_peer(m.from) + lit_crlf()
        + lit_to() + enc_peer(m.to) + lit_crlf()
}

/// Parses the three opening header lines.
#[verifier::opaque]
pub open spec fn parse_hdr(s: Seq<u8>) -> Option<((MsgType, (Key, Seq<u8>), (Key, Seq<u8>)), int)> {
    match parse_lit(s, 0, lit_magic()) {
        Some(i0) => {
            let j = scan_name(s, i0);
            match type_of_token(s.subrange(i0, j)) {
                Some(t) => match parse_lit(s, j, lit_crlf()) {
                    Some(i1) => match parse_lit(s, i1, lit_from()) {
                        Some(i2) => match parse_peer(s, i2) {
                            Some((from, i3)) => match parse_lit(s, i3, lit_crlf()) {
                                Some(i4) => match parse_lit(s, i4, lit_to()) {
                                    Some(i5) => match parse_peer(s, i5) {
                                        Some((to, i6)) => match parse_lit(s, i6, lit_crlf()) {
                                            Some(i7) => Some(((t, from, to), i7)),
                                            None => None,
                                        },
                                        None => None,
                                    },
                                    None => None,
                                },
                                None => None,
                            },
                            None => None,
                        },
                        None => None,
                    },
                    None => None,
                },
                None => None,
            }
        },
        None => None,
    }
}

/// Parsing inverts printing for the opening header lines.
pub proof fn lemma_parse_hdr(s: Seq<u8>, m: MessageModel)
    requires
        wf_name(m.from.1),
        wf_name(m.to.1),
        enc_hdr(m).len() <= s.len(),
        s.subrange(0, enc_hdr(m).len() as int) == enc_hdr(m),
    ensures
        parse_hdr(s) == Some(((m.type_of, m.from, m.to), enc_hdr(m).len() as int)),
{
    reveal(parse_hdr);
    let tok = token_of(m.type_of);
    let epf = enc_peer(m.from);
    let ept = enc_peer(m.to);
    let w1 = lit_magic() + tok;
    let w2 = w1 + lit_crlf();
    let w3 = w2 + lit_from();
    let w4 = w3 + epf;
    let w5 = w4 + lit_crlf();
    let w6 = w5 + lit_to();
    let w7 = w6 + ept;
    let w = w7 + lit_crlf();
    assert(w == enc_hdr(m));
    lemma_token_facts(m.type_of);
    lemma_concat_split(w7, lit_crlf());
    lemma_subrange_of_match(s, 0, w, 0, w7.len() as int, w7);
    lemma_subrange_of_match(s, 0, w, w7.len() as int, w.len() as int, lit_crlf());
    lemma_concat_split(w6, ept);
    lemma_subrange_of_match(s, 0, w7, 0, w6.len() as int, w6);
    lemma_subrange_of_match(s, 0, w7, w6.len() as int, w7.len() as int, ept);
    lemma_concat_split(w5, lit_to());
    lemma_subrange_of_match(s, 0, w6, 0, w5.len() as int, w5);
    lemma_subrange_of_match(s, 0, w6, w5.len() as int, w6.len() as int, lit_to());
    lemma_concat_split(w4, lit_crlf());
    lemma_subrange_of_match(s, 0, w5, 0, w4.len() as int, w4);
    lemma_subrange_of_match(s, 0, w5, w4.len() as int, w5.len() as int, lit_crlf());
    lemma_concat_split(w3, epf);
    lemma_subrange_of_match(s, 0, w4, 0, w3.len() as int, w3);
    lemma_subrange_of_match(s, 0, w4, w3.len() as int, w4.len() as int, epf);
    lemma_concat_split(w2, lit_from());
    lemma_subrange_of_match(s, 0, w3, 0, w2.len() as int, w2);
    lemma_subrange_of_match(s, 0, w3, w2.len() as int, w3.len() as int, lit_from());
    lemma_concat_split(w1, lit_crlf());
    lemma_subrange_of_match(s, 0, w2, 0, w1.len() as int, w1);
    lemma_subrange_of_match(s, 0, w2, w1.len() as int, w2.len() as int, lit_crlf());
    lemma_concat_split(lit_magic(), tok);
    lemma_subrange_of_match(s, 0, w1, 0, 8, lit_magic());
    lemma_subrange_of_match(s, 0, w1, 8, w1.len() as int, tok);
    // walk the parse
    assert(parse_lit(s, 0, lit_magic()) == Some(8int));
    let j = 8 + tok.len();
    assert(s[j as int] == lit_crlf()[0]) by {
        assert(s.subrange(w1.len() as int, w2.len() as int)[0] == lit_crlf()[0]);
    }
    assert(!name_byte(B_CR));
    assert forall|k: int| 8 <= k < j implies name_byte(#[trigger] s[k]) by {
        assert(s.subrange(8, w1.len() as int)[k - 8] == tok[k - 8]);
    }
    lemma_scan_name_run(s, 8, j as int);
    assert(s.subrange(8, j as int) == tok);
    let i1 = j + 2;
    assert(parse_lit(s, j as int, lit_crlf()) == Some(i1 as int));
    let i2 = i1 + 6;
    assert(parse_lit(s, i1 as int, lit_from()) == Some(i2 as int));
    lemma_parse_peer(s, i2 as int, m.from);
    let i3 = i2 + epf.len();
    let i4 = i3 + 2;
    assert(parse_lit(s, i3 as int, lit_crlf()) == Some(i4 as int));
    let i5 = i4 + 4;
    assert(parse_lit(s, i4 as int, lit_to()) == Some(i5 as int));
    lemma_parse_peer(s, i5 as int, m.to);
    let i6 = i5 + ept.len();
    let i7 = i6 + 2;
    assert(parse_lit(s, i6 as int, lit_crlf()) == Some(i7 as int));
    assert(i7 == enc_hdr(m).len());
}

/// Whether a frame of this type ends with a content line.
pub open spec fn has_content(t: MsgType) -> bool {
    t == MsgType::Insert || t == MsgType::PeersIGet || t == MsgType::PeersRGet
}

/// The type-specific header lines of a frame.
pub open spec fn enc_body(m: MessageModel) -> Seq<u8> {
    match m.type_of {
        MsgType::PeersR => lit_keys() + enc_peer_list(m.keys) + lit_crlf(),
        MsgType::ProvidersGetReply => lit_providers() + enc_prov_list(m.providers) + lit_crlf(),
        MsgType::Insert => lit_provider() + m.key.1 + lit_crlf() + lit_data_key() + dec_digits(
            m.data.0.key as nat,
        ) + lit_crlf(),
        MsgType::PeersIGet => lit_data_key() + dec_digits(m.data.0.key as nat) + lit_crlf(),
        MsgType::PeersRGet => lit_data_key() + dec_digits(m.data.0.key as nat) + lit_crlf(),
        _ => Seq::empty(),
    }
}

/// The canonical wire form of a frame: header lines, type-specific lines, a
/// blank line, and a content line for the types that carry one.
pub open spec fn enc_msg(m: MessageModel) -> Seq<u8> {
    enc_hdr(m) + enc_body(m) + lit_crlf() + (if has_content(m.type_of) {
        enc_data(m.data.1) + lit_crlf()
    } else {
        Seq::empty()
    })
}

/// A frame whose fields beyond the header all sit at their defaults.
pub open spec fn basic_model(t: MsgType, from: (Key, Seq<u8>), to: (Key, Seq<u8>)) -> MessageModel {
    MessageModel {
        type_of: t,
        from,
        to,
        key: empty_peer_model(),
        keys: Seq::empty(),
        providers: Seq::empty(),
        data: (Key { key: 0 }, empty_data_model()),
    }
}

/// Parses the tail of a frame with no type-specific lines.
pub open spec fn dec_basic(
    s: Seq<u8>,
    i: int,
    t: MsgType,
    from: (Key, Seq<u8>),
    to: (Key, Seq<u8>),
) -> Option<MessageModel> {
    match parse_lit(s, i, lit_crlf()) {
        Some(j) => if j == s.len() {
            Some(basic_model(t, from, to))
        } else {
            None
        },
        None => None,
    }
}

/// Parses the tail of a peer-list reply.
pub open spec fn dec_peers_r(
    s: Seq<u8>,
    i: int,
    t: MsgType,
    from: (Key, Seq<u8>),
    to: (Key, Seq<u8>),
) -> Option<MessageModel> {
    match parse_lit(s, i, lit_keys()) {
        Some(j) => match parse_peer_list(s, j) {
            Some((keys, e)) => match parse_lit(s, e, lit_crlf()) {
                Some(e2) => match parse_lit(s, e2, lit_crlf()) {
                    Some(e3) => if e3 == s.len() {
                        Some(MessageModel { keys, ..basic_model(t, from, to) })
                    } else {
                        None
                    },
                    None => None,
                },
                None => None,
            },
            None => None,
        },
        None => None,
    }
}

/// Parses the tail of a provider-list reply.
pub open spec fn dec_prov_reply(
    s: Seq<u8>,
    i: int,
    t: MsgType,
    from: (Key, Seq<u8>),
    to: (Key, Seq<u8>),
) -> Option<MessageModel> {
    match parse_lit(s, i, lit_providers()) {
        Some(j) => match parse_prov_list(s, j) {
            Some((providers, e)) => match parse_lit(s, e, lit_crlf()) {
                Some(e2) => match parse_lit(s, e2, lit_crlf()) {
                    Some(e3) => if e3 == s.len() {
                        Some(MessageModel { providers, ..basic_model(t, from, to) })
                    } else {
                        None
                    },
                    None => None,
                },
                None => None,
            },
            None => None,
        },
        None => None,
    }
}

/// Parses the tail of a content insertion frame.
pub open spec fn dec_insert(
    s: Seq<u8>,
    i: int,
    t: MsgType,
    from: (Key, Seq<u8>),
    to: (Key, Seq<u8>),
) -> Option<MessageModel> {
    match parse_lit(s, i, lit_provider()) {
        Some(j) => {
            let e = scan_name(s, j);
            match parse_lit(s, e, lit_crlf()) {
                Some(j2) => match parse_lit(s, j2, lit_data_key()) {
                    Some(j3) => match parse_u32(s, j3) {
                        Some((dk, j4)) => match parse_lit(s, j4, lit_crlf()) {
                            Some(j5) => match parse_lit(s, j5, lit_crlf()) {
                                Some(j6) => match parse_data(s, j6) {
                                    Some((d, j7)) => match parse_lit(s, j7, lit_crlf()) {
                                        Some(j8) => if j8 == s.len() {
                                            Some(
                                                MessageModel {
                                                    key: (Key { key: 0 }, s.subrange(j, e)),
                                                    data: (Key { key: dk }, d),
                                                    ..basic_model(t, from, to)
                                                },
                                            )
                                        } else {
                                            None
                                        },
                                        None => None,
                                    },
                                    None => None,
                                },
                                None => None,
                            },
                            None => None,
                        },
                        None => None,
                    },
                    None => None,
                },
                None => None,
            }
        },
        None => None,
    }
}

/// Parses the tail of a lookup frame that carries a data key.
pub open spec fn dec_get(
    s: Seq<u8>,
    i: int,
    t: MsgType,
    from: (Key, Seq<u8>),
    to: (Key, Seq<u8>),
) -> Option<MessageModel> {
    match parse_lit(s, i, lit_data_key()) {
        Some(j3) => match parse_u32(s, j3) {
            Some((dk, j4)) => match parse_lit(s, j4, lit_crlf()) {
                Some(j5) => match parse_lit(s, j5, lit_crlf()) {
                    Some(j6) => match parse_data(s, j6) {
                        Some((d, j7)) => match parse_lit(s, j7, lit_crlf()) {
                            Some(j8) => if j8 == s.len() {
                                Some(
                                    MessageModel {
                                        key: (Key { key: dk }, Seq::empty()),
                                        data: (Key { key: dk }, d),
                                        ..basic_model(t, from, to)
                                    },
                                )
                            } else {
                                None
                            },
                            None => None,
                        },
                        None => None,
                    },
                    None => None,
                },
                None => None,
            },
            None => None,
        },
        None => None,
    }
}

/// Parses one whole frame; the frame must fill the bytes exactly.
pub open spec fn dec_msg(s: Seq<u8>) -> Option<MessageModel> {
    match parse_hdr(s) {
        Some(((t, from, to), i)) => match t {
            MsgType::Init | MsgType::PeersI | MsgType::ProviderGet | MsgType::Ping => dec_basic(
                s,
                i,
                t,
                from,
                to,
            ),
            MsgType::PeersR => dec_peers_r(s, i, t, from, to),
            MsgType::ProvidersGetReply => dec_prov_reply(s, i, t, from, to),
            MsgType::Insert => dec_insert(s, i, t, from, to),
            MsgType::PeersIGet | MsgType::PeersRGet => dec_get(s, i, t, from, to),
        },
        None => None,
    }
}

/// What a frame must hold for its type so that every field survives the
/// wire: fields the type does not carry sit at their defaults, and free-form
/// byte fields keep clear of the format's delimiters.
pub open spec fn wf_wire(m: MessageModel) -> bool {
    wf_name(m.from.1) && wf_name(m.to.1) && match m.type_of {
        MsgType::Init | MsgType::PeersI | MsgType::ProviderGet | MsgType::Ping => m.key
            == empty_peer_model() && m.keys.len() == 0 && m.providers.len() == 0 && m.data == (
        Key { key: 0 },
        empty_data_model(),
        ),
        MsgType::PeersR => m.key == empty_peer_model() && m.providers.len() == 0 && m.data == (
        Key { key: 0 },
        empty_data_model(),
        ) && forall|i: int| 0 <= i < m.keys.len() ==> wf_name((#[trigger] m.keys[i]).1),
        MsgType::ProvidersGetReply => m.key == empty_peer_model() && m.keys.len() == 0 && m.data
            == (Key { key: 0 }, empty_data_model()) && forall|i: int|
            0 <= i < m.providers.len() ==> wf_name((#[trigger] m.providers[i]).0),
        MsgType::Insert => m.key.0 == Key { key: 0 } && wf_name(m.key.1) && m.keys.len() == 0
            && m.providers.len() == 0 && wf_name(m.data.1.filename),
        MsgType::PeersIGet | MsgType::PeersRGet => m.key == (m.data.0, Seq::<u8>::empty())
            && m.keys.len() == 0 && m.providers.len() == 0 && wf_name(m.data.1.filename),
    }
}


/// Where the header, the body lines, the blank line and the content line
/// sit inside a printed frame.
proof fn lemma_msg_layout(m: MessageModel)
    ensures
        enc_msg(m).len() == enc_hdr(m).len() + enc_body(m).len() + 2 + (if has_content(m.type_of) {
            enc_data(m.data.1).len() + 2
        } else {
            0
        }),
        enc_msg(m).subrange(0, enc_hdr(m).len() as int) == enc_hdr(m),
        enc_msg(m).subrange(
            enc_hdr(m).len() as int,
            (enc_hdr(m).len() + enc_body(m).len()) as int,
        ) == enc_body(m),
        enc_msg(m).subrange(
            (enc_hdr(m).len() + enc_body(m).len()) as int,
            (enc_hdr(m).len() + enc_body(m).len() + 2) as int,
        ) == lit_crlf(),
        has_content(m.type_of) ==> enc_msg(m).subrange(
            (enc_hdr(m).len() + enc_body(m).len() + 2) as int,
            (enc_hdr(m).len() + enc_body(m).len() + 2 + enc_data(m.data.1).len()) as int,
        ) == enc_data(m.data.1) && enc_msg(m).subrange(
            (enc_hdr(m).len() + enc_body(m).len() + 2 + enc_data(m.data.1).len()) as int,
            enc_msg(m).len() as int,
        ) == lit_crlf(),
{
    let s = enc_msg(m);
    let h = enc_hdr(m);
    let b = enc_body(m);
    let t = if has_content(m.type_of) {
        enc_data(m.data.1) + lit_crlf()
    } else {
        Seq::<u8>::empty()
    };
    let w1 = h + b;
    let w2 = w1 + lit_crlf();
    assert(s == w2 + t);
    lemma_concat_split(w2, t);
    assert(s.subrange(0, w2.len() as int) == w2);
    lemma_concat_split(w1, lit_crlf());
    lemma_subrange_of_match(s, 0, w2, 0, w1.len() as int, w1);
    lemma_subrange_of_match(s, 0, w2, w1.len() as int, w2.len() as int, lit_crlf());
    lemma_concat_split(h, b);
    lemma_subrange_of_match(s, 0, w1, 0, h.len() as int, h);
    lemma_subrange_of_match(s, 0, w1, h.len() as int, w1.len() as int, b);
    if has_content(m.type_of) {
        assert(s.subrange(w2.len() as int, s.len() as int) == t);
        lemma_concat_split(enc_data(m.data.1), lit_crlf());
        lemma_subrange_of_match(
            s,
            w2.len() as int,
            t,
            0,
            enc_data(m.data.1).len() as int,
            enc_data(m.data.1),
        );
        lemma_subrange_of_match(
            s,
            w2.len() as int,
            t,
            enc_data(m.data.1).len() as int,
            t.len() as int,
            lit_crlf(),
        );
    }
}

/// A frame with empty keys and providers equals the basic model of its
/// header fields.
proof fn lemma_model_eq_basic(m: MessageModel)
    requires
        m.key == empty_peer_model(),
        m.keys.len() == 0,
        m.providers.len() == 0,
        m.data == (Key { key: 0 }, empty_data_model()),
    ensures
        m == basic_model(m.type_of, m.from, m.to),
{
    assert(m.keys =~= Seq::<(Key, Seq<u8>)>::empty());
    assert(m.providers =~= Seq::<(Seq<u8>, Key)>::empty());
}

/// Round trip for the frames with no type-specific lines.
proof fn lemma_rt_basic(m: MessageModel)
    requires
        wf_wire(m),
        m.type_of == MsgType::Init || m.type_of == MsgType::PeersI || m.type_of
            == MsgType::ProviderGet || m.type_of == MsgType::Ping,
    ensures
        dec_msg(enc_msg(m)) == Some(m),
{
    let s = enc_msg(m);
    let hl = enc_hdr(m).len() as int;
    lemma_msg_layout(m);
    assert(enc_body(m).len() == 0);
    lemma_parse_hdr(s, m);
    assert(s.subrange(hl, hl + 2) == lit_crlf());
    assert(parse_lit(s, hl, lit_crlf()) == Some(hl + 2));
    assert(hl + 2 == s.len());
    lemma_model_eq_basic(m);
}

/// Round trip for peer-list replies.
#[verifier::rlimit(100)]
proof fn lemma_rt_peers_r(m: MessageModel)
    requires
        wf_wire(m),
        m.type_of == MsgType::PeersR,
    ensures
        dec_msg(enc_msg(m)) == Some(m),
{
    let s = enc_msg(m);
    let hl = enc_hdr(m).len() as int;
    let b = enc_body(m);
    let epl = enc_peer_list(m.keys);
    lemma_msg_layout(m);
    lemma_parse_hdr(s, m);
    // carve the body
    let b1 = lit_keys() + epl;
    assert(b == b1 + lit_crlf());
    lemma_concat_split(b1, lit_crlf());
    lemma_subrange_of_match(s, hl, b, 0, b1.len() as int, b1);
    lemma_subrange_of_match(s, hl, b, b1.len() as int, b.len() as int, lit_crlf());
    lemma_concat_split(lit_keys(), epl);
    lemma_subrange_of_match(s, hl, b1, 0, 6, lit_keys());
    lemma_subrange_of_match(s, hl, b1, 6, b1.len() as int, epl);
    assert(parse_lit(s, hl, lit_keys()) == Some(hl + 6));
    let j = hl + 6;
    let e = j + epl.len();
    assert(s[e] == lit_crlf()[0]) by {
        assert(s.subrange(hl + b1.len(), hl + b.len())[0] == lit_crlf()[0]);
    }
    lemma_parse_peer_list(s, j, m.keys);
    assert(parse_lit(s, e, lit_crlf()) == Some(e + 2));
    let e2 = e + 2;
    assert(e2 == hl + b.len());
    assert(parse_lit(s, e2, lit_crlf()) == Some(e2 + 2));
    assert(e2 + 2 == s.len());
    let got = MessageModel { keys: m.keys, ..basic_model(m.type_of, m.from, m.to) };
    assert(got == m) by {
        assert(m.providers =~= Seq::<(Seq<u8>, Key)>::empty());
    }
}

/// Round trip for provider-list replies.
#[verifier::rlimit(100)]
proof fn lemma_rt_prov_reply(m: MessageModel)
    requires
        wf_wire(m),
        m.type_of == MsgType::ProvidersGetReply,
    ensures
        dec_msg(enc_msg(m)) == Some(m),
{
    let s = enc_msg(m);
    let hl = enc_hdr(m).len() as int;
    let b = enc_body(m);
    let epl = enc_prov_list(m.providers);
    lemma_msg_layout(m);
    lemma_parse_hdr(s, m);
    let b1 = lit_providers() + epl;
    assert(b == b1 + lit_crlf());
    lemma_concat_split(b1, lit_crlf());
    lemma_subrange_of_match(s, hl, b, 0, b1.len() as int, b1);
    lemma_subrange_of_match(s, hl, b, b1.len() as int, b.len() as int, lit_crlf());
    lemma_concat_split(lit_providers(), epl);
    lemma_subrange_of_match(s, hl, b1, 0, 11, lit_providers());
    lemma_subrange_of_match(s, hl, b1, 11, b1.len() as int, epl);
    assert(parse_lit(s, hl, lit_providers()) == Some(hl + 11));
    let j = hl + 11;
    let e = j + epl.len();
    assert(s[e] == lit_crlf()[0]) by {
        assert(s.subrange(hl + b1.len(), hl + b.len())[0] == lit_crlf()[0]);
    }
    lemma_parse_prov_list(s, j, m.providers);
    assert(parse_lit(s, e, lit_crlf()) == Some(e + 2));
    let e2 = e + 2;
    assert(e2 == hl + b.len());
    assert(parse_lit(s, e2, lit_crlf()) == Some(e2 + 2));
    assert(e2 + 2 == s.len());
    let got = MessageModel { providers: m.providers, ..basic_model(m.type_of, m.from, m.to) };
    assert(got == m) by {
        assert(m.keys =~= Seq::<(Key, Seq<u8>)>::empty());
    }
}

/// Round trip for content insertion frames.
#[verifier::rlimit(100)]
proof fn lemma_rt_insert(m: MessageModel)
    requires
        wf_wire(m),
        m.type_of == MsgType::Insert,
    ensures
        dec_msg(enc_msg(m)) == Some(m),
{
    let s = enc_msg(m);
    let hl = enc_hdr(m).len() as int;
    let b = enc_body(m);
    let dd = dec_digits(m.data.0.key as nat);
    lemma_msg_layout(m);
    lemma_parse_hdr(s, m);
    lemma_dec_digits_are_digits(m.data.0.key as nat);
    // carve the body
    let b1 = lit_provider() + m.key.1;
    let b2 = b1 + lit_crlf();
    let b3 = b2 + lit_data_key();
    let b4 = b3 + dd;
    assert(b == b4 + lit_crlf());
    lemma_concat_split(b4, lit_crlf());
    lemma_subrange_of_match(s, hl, b, 0, b4.len() as int, b4);
    lemma_subrange_of_match(s, hl, b, b4.len() as int, b.len() as int, lit_crlf());
    lemma_concat_split(b3, dd);
    lemma_subrange_of_match(s, hl, b4, 0, b3.len() as int, b3);
    lemma_subrange_of_match(s, hl, b4, b3.len() as int, b4.len() as int, dd);
    lemma_concat_split(b2, lit_data_key());
    lemma_subrange_of_match(s, hl, b3, 0, b2.len() as int, b2);
    lemma_subrange_of_match(s, hl, b3, b2.len() as int, b3.len() as int, lit_data_key());
    lemma_concat_split(b1, lit_crlf());
    lemma_subrange_of_match(s, hl, b2, 0, b1.len() as int, b1);
    lemma_subrange_of_match(s, hl, b2, b1.len() as int, b2.len() as int, lit_crlf());
    lemma_concat_split(lit_provider(), m.key.1);
    lemma_subrange_of_match(s, hl, b1, 0, 10, lit_provider());
    lemma_subrange_of_match(s, hl, b1, 10, b1.len() as int, m.key.1);
    // walk the parse
    assert(parse_lit(s, hl, lit_provider()) == Some(hl + 10));
    let j = hl + 10;
    let e = j + m.key.1.len();
    assert(s[e] == lit_crlf()[0]) by {
        assert(s.subrange(hl + b1.len(), hl + b2.len())[0] == lit_crlf()[0]);
    }
    assert(!name_byte(B_CR));
    assert forall|k: int| j <= k < e implies name_byte(#[trigger] s[k]) by {
        assert(s.subrange(hl + 10, hl + b1.len())[k - j] == m.key.1[k - j]);
    }
    lemma_scan_name_run(s, j, e);
    assert(s.subrange(j, e) == m.key.1);
    assert(parse_lit(s, e, lit_crlf()) == Some(e + 2));
    let j2 = e + 2;
    assert(parse_lit(s, j2, lit_data_key()) == Some(j2 + 10));
    let j3 = j2 + 10;
    let j4 = j3 + dd.len();
    assert(s[j4] == lit_crlf()[0]) by {
        assert(s.subrange(hl + b4.len(), hl + b.len())[0] == lit_crlf()[0]);
    }
    assert(!is_digit(B_CR));
    lemma_parse_u32_of_dec(s, j3, m.data.0.key);
    assert(parse_lit(s, j4, lit_crlf()) == Some(j4 + 2));
    let j5 = j4 + 2;
    assert(j5 == hl + b.len());
    assert(parse_lit(s, j5, lit_crlf()) == Some(j5 + 2));
    let j6 = j5 + 2;
    lemma_parse_data(s, j6, m.data.1);
    let j7 = j6 + enc_data(m.data.1).len();
    assert(parse_lit(s, j7, lit_crlf()) == Some(j7 + 2));
    assert(j7 + 2 == s.len());
    let got = MessageModel {
        key: (Key { key: 0 }, s.subrange(j, e)),
        data: (Key { key: m.data.0.key }, m.data.1),
        ..basic_model(m.type_of, m.from, m.to)
    };
    assert(got == m) by {
        assert(m.keys =~= Seq::<(Key, Seq<u8>)>::empty());
        assert(m.providers =~= Seq::<(Seq<u8>, Key)>::empty());
        assert((Key { key: 0 }, s.subrange(j, e)) == m.key);
        assert(Key { key: m.data.0.key } == m.data.0);
    }
}

/// Round trip for the two lookup frames that carry a data key.
#[verifier::rlimit(100)]
proof fn lemma_rt_get(m: MessageModel)
    requires
        wf_wire(m),
        m.type_of == MsgType::PeersIGet || m.type_of == MsgType::PeersRGet,
    ensures
        dec_msg(enc_msg(m)) == Some(m),
{
    let s = enc_msg(m);
    let hl = enc_hdr(m).len() as int;
    let b = enc_body(m);
    let dd = dec_digits(m.data.0.key as nat);
    lemma_msg_layout(m);
    lemma_parse_hdr(s, m);
    lemma_dec_digits_are_digits(m.data.0.key as nat);
    let b1 = lit_data_key() + dd;
    assert(b == b1 + lit_crlf());
    lemma_concat_split(b1, lit_crlf());
    lemma_subrange_of_match(s, hl, b, 0, b1.len() as int, b1);
    lemma_subrange_of_match(s, hl, b, b1.len() as int, b.len() as int, lit_crlf());
    lemma_concat_split(lit_data_key(), dd);
    lemma_subrange_of_match(s, hl, b1, 0, 10, lit_data_key());
    lemma_subrange_of_match(s, hl, b1, 10, b1.len() as int, dd);
    assert(parse_lit(s, hl, lit_data_key()) == Some(hl + 10));
    let j3 = hl + 10;
    let j4 = j3 + dd.len();
    assert(s[j4] == lit_crlf()[0]) by {
        assert(s.subrange(hl + b1.len(), hl + b.len())[0] == lit_crlf()[0]);
    }
    assert(!is_digit(B_CR));
    lemma_parse_u32_of_dec(s, j3, m.data.0.key);
    assert(parse_lit(s, j4, lit_crlf()) == Some(j4 + 2));
    let j5 = j4 + 2;
    assert(j5 == hl + b.len());
    assert(parse_lit(s, j5, lit_crlf()) == Some(j5 + 2));
    let j6 = j5 + 2;
    lemma_parse_data(s, j6, m.data.1);
    let j7 = j6 + enc_data(m.data.1).len();
    assert(parse_lit(s, j7, lit_crlf()) == Some(j7 + 2));
    assert(j7 + 2 == s.len());
    let got = MessageModel {
        key: (Key { key: m.data.0.key }, Seq::<u8>::empty()),
        data: (Key { key: m.data.0.key }, m.data.1),
        ..basic_model(m.type_of, m.from, m.to)
    };
    assert(got == m) by {
        assert(m.keys =~= Seq::<(Key, Seq<u8>)>::empty());
        assert(m.providers =~= Seq::<(Seq<u8>, Key)>::empty());
        assert(Key { key: m.data.0.key } == m.data.0);
        assert((Key { key: m.data.0.key }, Seq::<u8>::empty()) == m.key);
    }
}

/// Decoding a printed frame gives the frame back: the round trip holds for
/// every message type, with the lists carried over in order.
pub proof fn lemma_round_trip(m: MessageModel)
    requires
        wf_wire(m),
    ensures
        dec_msg(enc_msg(m)) == Some(m),
{
    match m.type_of {
        MsgType::Init | MsgType::PeersI | MsgType::ProviderGet | MsgType::Ping => lemma_rt_basic(m),
        MsgType::PeersR => lemma_rt_peers_r(m),
        MsgType::ProvidersGetReply => lemma_rt_prov_reply(m),
        MsgType::Insert => lemma_rt_insert(m),
        MsgType::PeersIGet | MsgType::PeersRGet => lemma_rt_get(m),
    }
}

/// The bytes of `lit_crlf`.
fn crlf_bytes() -> (r: Vec<u8>)
    ensures
        r@ == lit_crlf(),
{
    let mut r: Vec<u8> = Vec::new();
    r.push(0x0d);
    r.push(0x0a);
    assert(r@ =~= lit_crlf());
    r
}

/// The bytes of `lit_magic`.
fn magic_bytes() -> (r: Vec<u8>)
    ensures
        r@ == lit_magic(),
{
    let mut r: Vec<u8> = Vec::new();
    r.push(0x50);
    r.push(0x32);
    r.push(0x50);
    r.push(0x2f);
    r.push(0x31);
    r.push(0x2e);
    r.push(0x30);
    r.push(0x20);
    assert(r@ =~= lit_magic());
    r
}

/// The bytes of `lit_from`.
fn from_bytes() -> (r: Vec<u8>)
    ensures
        r@ == lit_from(),
{
    let mut r: Vec<u8> = Vec::new();
    r.push(0x46);
    r.push(0x52);
    r.push(0x4f);
    r.push(0x4d);
    r.push(0x2d);
    r.push(0x20);
    assert(r@ =~= lit_from());
    r
}

/// The bytes of `lit_to`.
fn to_bytes() -> (r: Vec<u8>)
    ensures
        r@ == lit_to(),
{
    let mut r: Vec<u8> = Vec::new();
    r.push(0x54);
    r.push(0x4f);
    r.push(0x2d);
    r.push(0x20);
    assert(r@ =~= lit_to());
    r
}

/// The bytes of `lit_keys`.
fn keys_bytes() -> (r: Vec<u8>)
    ensures
        r@ == lit_keys(),
{
    let mut r: Vec<u8> = Vec::new();
    r.push(0x4b);
    r.push(0x45);
    r.push(0x59);
    r.push(0x53);
    r.push(0x2d);
    r.push(0x20);
    assert(r@ =~= lit_keys());
    r
}

/// The bytes of `lit_providers`.
fn providers_bytes() -> (r: Vec<u8>)
    ensures
        r@ == lit_providers(),
{
    let mut r: Vec<u8> = Vec::new();
    r.push(0x50);
    r.push(0x52);
    r.push(0x4f);
    r.push(0x56);
    r.push(0x49);
    r.push(0x44);
    r.push(0x45);
    r.push(0x52);
    r.push(0x53);
    r.push(0x2d);
    r.push(0x20);
    assert(r@ =~= lit_providers());
    r
}

/// The bytes of `lit_provider`.
fn provider_bytes() -> (r: Vec<u8>)
    ensures
        r@ == lit_provider(),
{
    let mut r: Vec<u8> = Vec::new();
    r.push(0x50);
    r.push(0x52);
    r.push(0x4f);
    r.push(0x56);
    r.push(0x49);
    r.push(0x44);
    r.push(0x45);
    r.push(0x52);
    r.push(0x2d);
    r.push(0x20);
    assert(r@ =~= lit_provider());
    r
}

/// The bytes of `lit_data_key`.
fn data_key_bytes() -> (r: Vec<u8>)
    ensures
        r@ == lit_data_key(),
{
    let mut r: Vec<u8> = Vec::new();
    r.push(0x44);
    r.push(0x41);
    r.push(0x54);
    r.push(0x41);
    r.push(0x5f);
    r.push(0x4b);
    r.push(0x45);
    r.push(0x59);
    r.push(0x2d);
    r.push(0x20);
    assert(r@ =~= lit_data_key());
    r
}

/// The bytes of `lit_json_id`.
fn json_id_bytes() -> (r: Vec<u8>)
    ensures
        r@ == lit_json_id(),
{
    let mut r: Vec<u8> = Vec::new();
    r.push(0x7b);
    r.push(0x22);
    r.push(0x69);
    r.push(0x64);
    r.push(0x22);
    r.push(0x3a);
    assert(r@ =~= lit_json_id());
    r
}

/// The bytes of `lit_json_vec`.
fn json_vec_bytes() -> (r: Vec<u8>)
    ensures
        r@ == lit_json_vec(),
{
    let mut r: Vec<u8> = Vec::new();
    r.push(0x2c);
    r.push(0x22);
    r.push(0x76);
    r.push(0x65);
    r.push(0x63);
    r.push(0x22);
    r.push(0x3a);
    r.push(0x5b);
    assert(r@ =~= lit_json_vec());
    r
}

/// The bytes of `lit_json_filename`.
fn json_filename_bytes() -> (r: Vec<u8>)
    ensures
        r@ == lit_json_filename(),
{
    let mut r: Vec<u8> = Vec::new();
    r.push(0x5d);
    r.push(0x2c);
    r.push(0x22);
    r.push(0x66);
    r.push(0x69);
    r.push(0x6c);
    r.push(0x65);
    r.push(0x6e);
    r.push(0x61);
    r.push(0x6d);
    r.push(0x65);
    r.push(0x22);
    r.push(0x3a);
    r.push(0x22);
    assert(r@ =~= lit_json_filename());
    r
}

/// The bytes of `lit_json_end`.
fn json_end_bytes() -> (r: Vec<u8>)
    ensures
        r@ == lit_json_end(),
{
    let mut r: Vec<u8> = Vec::new();
    r.push(0x22);
    r.push(0x7d);
    assert(r@ =~= lit_json_end());
    r
}

/// The bytes of a message type's line tag.
fn token_bytes(t: MsgType) -> (r: Vec<u8>)
    ensures
        r@ == token_of(t),
{
    let mut r: Vec<u8> = Vec::new();
    match t {
        MsgType::Init => {
            r.push(0x49);
            r.push(0x4e);
            r.push(0x49);
            r.push(0x54);
        },
        MsgType::PeersI => {
            r.push(0x50);
            r.push(0x45);
            r.push(0x45);
            r.push(0x52);
            r.push(0x53);
            r.push(0x5f);
            r.push(0x49);
        },
        MsgType::PeersR => {
            r.push(0x50);
            r.push(0x45);
            r.push(0x45);
            r.push(0x52);
            r.push(0x53);
            r.push(0x5f);
            r.push(0x52);
        },
        MsgType::PeersIGet => {
            r.push(0x50);
            r.push(0x45);
            r.push(0x45);
            r.push(0x52);
            r.push(0x53);
            r.push(0x5f);
            r.push(0x49);
            r.push(0x5f);
            r.push(0x47);
            r.push(0x45);
            r.push(0x54);
        },
        MsgType::PeersRGet => {
            r.push(0x50);
            r.push(0x45);
            r.push(0x45);
            r.push(0x52);
            r.push(0x53);
            r.push(0x5f);
            r.push(0x52);
            r.push(0x5f);
            r.push(0x47);
            r.push(0x45);
            r.push(0x54);
        },
        MsgType::ProviderGet => {
            r.push(0x50);
            r.push(0x52);
            r.push(0x4f);
            r.push(0x56);
            r.push(0x49);
            r.push(0x44);
            r.push(0x45);
            r.push(0x52);
            r.push(0x5f);
            r.push(0x47);
            r.push(0x45);
            r.push(0x54);
        },
        MsgType::ProvidersGetReply => {
            r.push(0x50);
            r.push(0x52);
            r.push(0x4f);
            r.push(0x56);
            r.push(0x49);
            r.push(0x44);
            r.push(0x45);
            r.push(0x52);
            r.push(0x53);
            r.push(0x5f);
            r.push(0x47);
            r.push(0x45);
            r.push(0x54);
            r.push(0x5f);
            r.push(0x52);
            r.push(0x45);
            r.push(0x50);
            r.push(0x4c);
            r.push(0x59);
        },
        MsgType::Ping => {
            r.push(0x50);
            r.push(0x49);
            r.push(0x4e);
            r.push(0x47);
        },
        MsgType::Insert => {
            r.push(0x49);
            r.push(0x4e);
            r.push(0x53);
            r.push(0x45);
            r.push(0x52);
            r.push(0x54);
        },
    }
    assert(r@ =~= token_of(t));
    r
}

/// Appends a byte vector.
fn push_bytes(out: &mut Vec<u8>, v: &Vec<u8>)
    ensures
        final(out)@ == old(out)@ + v@,
{
    let mut i: usize = 0;
    while i < v.len()
        invariant
            i <= v@.len(),
            out@ == old(out)@ + v@.subrange(0, i as int),
        decreases v@.len() - i,
    {
        out.push(v[i]);
        i = i + 1;
        assert(out@ =~= old(out)@ + v@.subrange(0, i as int));
    }
    assert(out@ =~= old(out)@ + v@);
}

/// Copies `s[a..b)` out into a fresh vector.
fn copy_range(s: &[u8], a: usize, b: usize) -> (r: Vec<u8>)
    requires
        a <= b <= s@.len(),
    ensures
        r@ == s@.subrange(a as int, b as int),
{
    let mut r: Vec<u8> = Vec::new();
    let mut i: usize = a;
    while i < b
        invariant
            a <= i <= b <= s@.len(),
            r@ == s@.subrange(a as int, i as int),
        decreases b - i,
    {
        r.push(s[i]);
        i = i + 1;
        assert(r@ =~= s@.subrange(a as int, i as int));
    }
    r
}

/// Matches an exact byte sequence at `i`, as `parse_lit` does.
fn ex_expect(s: &[u8], i: usize, lit: &Vec<u8>) -> (r: Option<usize>)
    ensures
        match r {
            Some(j) => parse_lit(s@, i as int, lit@) == Some(j as int) && j == i + lit@.len() && j
                <= s@.len(),
            None => parse_lit(s@, i as int, lit@) is None,
        },
{
    if i > s.len() || s.len() - i < lit.len() {
        return None;
    }
    let mut k: usize = 0;
    while k < lit.len()
        invariant
            s@.len() <= usize::MAX,
            i + lit@.len() <= s@.len(),
            k <= lit@.len(),
            forall|x: int| 0 <= x < k ==> s@[i + x] == lit@[x],
        decreases lit@.len() - k,
    {
        if s[i + k] != lit[k] {
            proof {
                assert(s@.subrange(i as int, i + lit@.len())[k as int] != lit@[k as int]);
                assert(s@.subrange(i as int, i + lit@.len()) != lit@);
            }
            return None;
        }
        k = k + 1;
    }
    proof {
        assert(s@.subrange(i as int, i + lit@.len()) =~= lit@);
    }
    Some(i + lit.len())
}

/// The first non-digit position, as `scan_digits`.
fn ex_scan_digits(s: &[u8], i: usize) -> (r: usize)
    requires
        i <= s@.len(),
    ensures
        r == scan_digits(s@, i as int),
        i <= r <= s@.len(),
    decreases s@.len() - i,
{
    proof {
        reveal(scan_digits);
    }
    if i < s.len() && B_ZERO <= s[i] && s[i] <= B_NINE {
        ex_scan_digits(s, i + 1)
    } else {
        i
    }
}

/// The first delimiter position, as `scan_name`.
fn ex_scan_name(s: &[u8], i: usize) -> (r: usize)
    requires
        i <= s@.len(),
    ensures
        r == scan_name(s@, i as int),
        i <= r <= s@.len(),
    decreases s@.len() - i,
{
    proof {
        reveal(scan_name);
    }
    if i < s.len() {
        let b = s[i];
        if b != B_LPAR && b != B_RPAR && b != B_COMMA && b != B_SPACE && b != B_CR && b != B_LF && b
            != B_QUOTE && b != B_BACKSLASH {
            return ex_scan_name(s, i + 1);
        }
    }
    i
}

/// Parses a decimal number, as `parse_u32`.
fn ex_parse_u32(s: &[u8], i: usize) -> (r: Option<(u32, usize)>)
    requires
        i <= s@.len(),
    ensures
        match r {
            Some((v, j)) => parse_u32(s@, i as int) == Some((v, j as int)) && i < j <= s@.len(),
            None => parse_u32(s@, i as int) is None,
        },
{
    proof {
        reveal(parse_u32);
        reveal(digits_val);
    }
    let j = ex_scan_digits(s, i);
    if j == i {
        return None;
    }
    let mut val: u64 = 0;
    let mut k: usize = i;
    while k < j
        invariant
            i <= k <= j <= s@.len(),
            j == scan_digits(s@, i as int),
            val <= 0xa_0000_0009,
            digits_val(s@, i as int, k as int) <= 0xffff_ffff ==> val == digits_val(
                s@,
                i as int,
                k as int,
            ),
            digits_val(s@, i as int, k as int) > 0xffff_ffff ==> val > 0xffff_ffff,
            digits_val(s@, i as int, k as int) >= 0,
        decreases j - k,
    {
        proof {
            reveal(digits_val);
            lemma_scan_digits_mid(s@, i as int, k as int);
        }
        if val > 0xffff_ffff {
            val = 0x1_0000_0000;
        }
        let d = s[k] - B_ZERO;
        val = val * 10 + (d as u64);
        k = k + 1;
        proof {
            assert(digits_val(s@, i as int, k as int) == digits_val(s@, i as int, k as int - 1) * 10
                + (s@[k as int - 1] - B_ZERO));
        }
    }
    if val <= 0xffff_ffff {
        Some((val as u32, j))
    } else {
        None
    }
}

/// Every position inside a digit run holds a digit.
proof fn lemma_scan_digits_mid(s: Seq<u8>, i: int, k: int)
    requires
        0 <= i <= k,
        k < scan_digits(s, i),
    ensures
        k < s.len() && is_digit(s[k]),
    decreases k - i,
{
    reveal(scan_digits);
    if i < k {
        lemma_scan_digits_mid(s, i + 1, k);
    }
}

/// Parses a peer record, as `parse_peer`.
fn ex_parse_peer(s: &[u8], i: usize) -> (r: Option<((Key, Vec<u8>), usize)>)
    requires
        i <= s@.len(),
    ensures
        match r {
            Some((p, j)) => parse_peer(s@, i as int) == Some(((p.0, p.1@), j as int)) && i < j
                <= s@.len(),
            None => parse_peer(s@, i as int) is None,
        },
{
    proof {
        reveal(parse_peer);
    }
    if i < s.len() && s[i] == B_LPAR {
        match ex_parse_u32(s, i + 1) {
            Some((k, j)) => {
                if j < s.len() && s[j] == B_COMMA {
                    let e = ex_scan_name(s, j + 1);
                    if e < s.len() && s[e] == B_RPAR {
                        let addr = copy_range(s, j + 1, e);
                        Some(((Key { key: k }, addr), e + 1))
                    } else {
                        None
                    }
                } else {
                    None
                }
            },
            None => None,
        }
    } else {
        None
    }
}

/// Parses a provider entry, as `parse_prov`.
fn ex_parse_prov(s: &[u8], i: usize) -> (r: Option<((Vec<u8>, Key), usize)>)
    requires
        i <= s@.len(),
    ensures
        match r {
            Some((p, j)) => parse_prov(s@, i as int) == Some(((p.0@, p.1), j as int)) && i < j
                <= s@.len(),
            None => parse_prov(s@, i as int) is None,
        },
{
    proof {
        reveal(parse_prov);
    }
    if i < s.len() && s[i] == B_LPAR {
        let e = ex_scan_name(s, i + 1);
        if e < s.len() && s[e] == B_COMMA {
            match ex_parse_u32(s, e + 1) {
                Some((k, j)) => {
                    if j < s.len() && s[j] == B_RPAR {
                        let name = copy_range(s, i + 1, e);
                        Some(((name, Key { key: k }), j + 1))
                    } else {
                        None
                    }
                },
                None => None,
            }
        } else {
            None
        }
    } else {
        None
    }
}

/// Parses a peer list, as `parse_peer_list`.
fn ex_parse_peer_list(s: &[u8], i: usize) -> (r: Option<(Vec<(Key, Vec<u8>)>, usize)>)
    requires
        i <= s@.len(),
    ensures
        match r {
            Some((l, j)) => parse_peer_list(s@, i as int) == Some(
                (Seq::new(l@.len(), |x: int| peer_view(l@[x])), j as int),
            ) && i <= j <= s@.len(),
            None => parse_peer_list(s@, i as int) is None,
        },
    decreases s@.len() - i,
{
    proof {
        reveal(parse_peer_list);
    }
    if i >= s.len() {
        return None;
    }
    if s[i] == B_CR {
        let l: Vec<(Key, Vec<u8>)> = Vec::new();
        proof {
            assert(Seq::new(l@.len(), |x: int| peer_view(l@[x])) =~= Seq::<(Key, Seq<u8>)>::empty());
        }
        return Some((l, i));
    }
    match ex_parse_peer(s, i) {
        Some((p, j)) => {
            if j < s.len() && s[j] == B_SPACE {
                match ex_parse_peer_list(s, j + 1) {
                    Some((rest, e)) => {
                        let ghost p_v = (p.0, p.1@);
                        let ghost rest_v = Seq::new(rest@.len(), |x: int| peer_view(rest@[x]));
                        let mut l = rest;
                        l.insert(0, p);
                        proof {
                            assert(Seq::new(l@.len(), |x: int| peer_view(l@[x])) =~= seq![p_v]
                                + rest_v);
                        }
                        Some((l, e))
                    },
                    None => None,
                }
            } else {
                None
            }
        },
        None => None,
    }
}

/// Parses a provider list, as `parse_prov_list`.
fn ex_parse_prov_list(s: &[u8], i: usize) -> (r: Option<(Vec<(Vec<u8>, Key)>, usize)>)
    requires
        i <= s@.len(),
    ensures
        match r {
            Some((l, j)) => parse_prov_list(s@, i as int) == Some(
                (Seq::new(l@.len(), |x: int| ((l@[x].0@, l@[x].1))), j as int),
            ) && i <= j <= s@.len(),
            None => parse_prov_list(s@, i as int) is None,
        },
    decreases s@.len() - i,
{
    proof {
        reveal(parse_prov_list);
    }
    if i >= s.len() {
        return None;
    }
    if s[i] == B_CR {
        let l: Vec<(Vec<u8>, Key)> = Vec::new();
        proof {
            assert(Seq::new(l@.len(), |x: int| ((l@[x].0@, l@[x].1))) =~= Seq::<(
                Seq<u8>,
                Key,
            )>::empty());
        }
        return Some((l, i));
    }
    match ex_parse_prov(s, i) {
        Some((p, j)) => {
            if j < s.len() && s[j] == B_SPACE {
                match ex_parse_prov_list(s, j + 1) {
                    Some((rest, e)) => {
                        let ghost p_v = (p.0@, p.1);
                        let ghost rest_v = Seq::new(rest@.len(), |x: int| ((rest@[x].0@, rest@[x].1)));
                        let mut l = rest;
                        l.insert(0, p);
                        proof {
                            assert(Seq::new(l@.len(), |x: int| ((l@[x].0@, l@[x].1))) =~= seq![p_v]
                                + rest_v);
                        }
                        Some((l, e))
                    },
                    None => None,
                }
            } else {
                None
            }
        },
        None => None,
    }
}


/// Parses the later bytes of the JSON array, as `parse_byte_rest`.
fn ex_parse_byte_rest(s: &[u8], i: usize) -> (r: Option<(Vec<u8>, usize)>)
    requires
        i <= s@.len(),
    ensures
        match r {
            Some((v, j)) => parse_byte_rest(s@, i as int) == Some((v@, j as int)) && i <= j
                <= s@.len(),
            None => parse_byte_rest(s@, i as int) is None,
        },
    decreases s@.len() - i,
{
    proof {
        reveal(parse_byte_rest);
    }
    if i >= s.len() {
        return None;
    }
    if s[i] == B_RBRACKET {
        let v: Vec<u8> = Vec::new();
        proof {
            assert(v@ =~= Seq::<u8>::empty());
        }
        return Some((v, i));
    }
    if s[i] == B_COMMA {
        match ex_parse_u32(s, i + 1) {
            Some((b, j)) => {
                if b <= 255 {
                    match ex_parse_byte_rest(s, j) {
                        Some((rest, e)) => {
                            let ghost rest_v = rest@;
                            let mut v = rest;
                            v.insert(0, b as u8);
                            proof {
                                assert(v@ =~= seq![b as u8] + rest_v);
                            }
                            Some((v, e))
                        },
                        None => None,
                    }
                } else {
                    None
                }
            },
            None => None,
        }
    } else {
        None
    }
}

/// Parses the bytes of the JSON array, as `parse_byte_list`.
fn ex_parse_byte_list(s: &[u8], i: usize) -> (r: Option<(Vec<u8>, usize)>)
    requires
        i <= s@.len(),
    ensures
        match r {
            Some((v, j)) => parse_byte_list(s@, i as int) == Some((v@, j as int)) && i <= j
                <= s@.len(),
            None => parse_byte_list(s@, i as int) is None,
        },
{
    proof {
        reveal(parse_byte_list);
    }
    if i >= s.len() {
        return None;
    }
    if s[i] == B_RBRACKET {
        let v: Vec<u8> = Vec::new();
        proof {
            assert(v@ =~= Seq::<u8>::empty());
        }
        return Some((v, i));
    }
    match ex_parse_u32(s, i) {
        Some((b, j)) => {
            if b <= 255 {
                match ex_parse_byte_rest(s, j) {
                    Some((rest, e)) => {
                        let ghost rest_v = rest@;
                        let mut v = rest;
                        v.insert(0, b as u8);
                        proof {
                            assert(v@ =~= seq![b as u8] + rest_v);
                        }
                        Some((v, e))
                    },
                    None => None,
                }
            } else {
                None
            }
        },
        None => None,
    }
}

/// Parses a content payload, as `parse_data`.
fn ex_parse_data(s: &[u8], i: usize) -> (r: Option<(Data, usize)>)
    requires
        i <= s@.len(),
    ensures
        match r {
            Some((d, j)) => parse_data(s@, i as int) == Some((d@, j as int)) && i <= j <= s@.len(),
            None => parse_data(s@, i as int) is None,
        },
{
    proof {
        reveal(parse_data);
    }
    match ex_expect(s, i, &json_id_bytes()) {
        Some(i1) => match ex_parse_u32(s, i1) {
            Some((id, i2)) => match ex_expect(s, i2, &json_vec_bytes()) {
                Some(i3) => match ex_parse_byte_list(s, i3) {
                    Some((vec, i4)) => match ex_expect(s, i4, &json_filename_bytes()) {
                        Some(i5) => {
                            let e = ex_scan_name(s, i5);
                            match ex_expect(s, e, &json_end_bytes()) {
                                Some(i6) => {
                                    let filename = copy_range(s, i5, e);
                                    let d = Data { id, vec, file_meta: FileMetadata { filename } };
                                    Some((d, i6))
                                },
                                None => None,
                            }
                        },
                        None => None,
                    },
                    None => None,
                },
                None => None,
            },
            None => None,
        },
        None => None,
    }
}

/// The message type a line tag names, as `type_of_token`.
fn ex_type_of_token(tok: &Vec<u8>) -> (r: Option<MsgType>)
    ensures
        r == type_of_token(tok@),
{
    if crate::data::bytes_eq(tok, &token_bytes(MsgType::Init)) {
        Some(MsgType::Init)
    } else if crate::data::bytes_eq(tok, &token_bytes(MsgType::PeersI)) {
        Some(MsgType::PeersI)
    } else if crate::data::bytes_eq(tok, &token_bytes(MsgType::PeersR)) {
        Some(MsgType::PeersR)
    } else if crate::data::bytes_eq(tok, &token_bytes(MsgType::PeersIGet)) {
        Some(MsgType::PeersIGet)
    } else if crate::data::bytes_eq(tok, &token_bytes(MsgType::PeersRGet)) {
        Some(MsgType::PeersRGet)
    } else if crate::data::bytes_eq(tok, &token_bytes(MsgType::ProviderGet)) {
        Some(MsgType::ProviderGet)
    } else if crate::data::bytes_eq(tok, &token_bytes(MsgType::ProvidersGetReply)) {
        Some(MsgType::ProvidersGetReply)
    } else if crate::data::bytes_eq(tok, &token_bytes(MsgType::Ping)) {
        Some(MsgType::Ping)
    } else if crate::data::bytes_eq(tok, &token_bytes(MsgType::Insert)) {
        Some(MsgType::Insert)
    } else {
        None
    }
}

/// Parses the opening header lines, as `parse_hdr`.
fn ex_parse_hdr(s: &[u8]) -> (r: Option<((MsgType, (Key, Vec<u8>), (Key, Vec<u8>)), usize)>)
    ensures
        match r {
            Some((h, j)) => parse_hdr(s@) == Some(
                ((h.0, (h.1.0, h.1.1@), (h.2.0, h.2.1@)), j as int),
            ) && j <= s@.len(),
            None => parse_hdr(s@) is None,
        },
{
    proof {
        reveal(parse_hdr);
    }
    match ex_expect(s, 0, &magic_bytes()) {
        Some(i0) => {
            let j = ex_scan_name(s, i0);
            let tok = copy_range(s, i0, j);
            match ex_type_of_token(&tok) {
                Some(t) => match ex_expect(s, j, &crlf_bytes()) {
                    Some(i1) => match ex_expect(s, i1, &from_bytes()) {
                        Some(i2) => match ex_parse_peer(s, i2) {
                            Some((from, i3)) => match ex_expect(s, i3, &crlf_bytes()) {
                                Some(i4) => match ex_expect(s, i4, &to_bytes()) {
                                    Some(i5) => match ex_parse_peer(s, i5) {
                                        Some((to, i6)) => match ex_expect(s, i6, &crlf_bytes()) {
                                            Some(i7) => Some(((t, from, to), i7)),
                                            None => None,
                                        },
                                        None => None,
                                    },
                                    None => None,
                                },
                                None => None,
                            },
                            None => None,
                        },
                        None => None,
                    },
                    None => None,
                },
                None => None,
            }
        },
        None => None,
    }
}

/// The error with which decoding a malformed or truncated frame fails.
#[derive(PartialEq, Eq, Structural, Clone, Copy, Debug)]
pub struct ProtocolDecodeError;

/// Whether a frame of this type ends with a content line.
pub fn message_has_content(t: MsgType) -> (r: bool)
    ensures
        r == has_content(t),
{
    match t {
        MsgType::Insert | MsgType::PeersIGet | MsgType::PeersRGet => true,
        _ => false,
    }
}

impl Message {
    /// Builds a frame with the given header fields and data payload, and
    /// empty lists.
    pub fn new(
        type_of: MsgType,
        from: (Key, Vec<u8>),
        to: (Key, Vec<u8>),
        key: (Key, Vec<u8>),
        data_key: Key,
        data: Data,
    ) -> (r: Message)
        ensures
            r@.type_of == type_of,
            r@.from == (from.0, from.1@),
            r@.to == (to.0, to.1@),
            r@.key == (key.0, key.1@),
            r@.keys.len() == 0,
            r@.providers.len() == 0,
            r@.data == (data_key, data@),
    {
        Message {
            type_of,
            from,
            to,
            key,
            keys: Vec::new(),
            providers: Vec::new(),
            data: (data_key, data),
        }
    }

    /// Decodes one whole frame, failing on a truncated frame, a missing or
    /// malformed field, or a numeric field out of range: exactly when the
    /// bytes are no canonical frame.
    pub fn read_message(bytes: &[u8]) -> (r: Result<Message, ProtocolDecodeError>)
        ensures
            match r {
                Ok(m) => dec_msg(bytes@) == Some(m@),
                Err(_) => dec_msg(bytes@) is None,
            },
    {
        let s = bytes;
        let hdr = ex_parse_hdr(s);
        match hdr {
            Some(((t, from, to), i)) => match t {
                MsgType::Init | MsgType::PeersI | MsgType::ProviderGet | MsgType::Ping => {
                    match ex_expect(s, i, &crlf_bytes()) {
                        Some(j) => {
                            if j == s.len() {
                                let m = Message::new(
                                    t,
                                    from,
                                    to,
                                    create_empty_peer_record(),
                                    Key { key: 0 },
                                    Data::create_empty(),
                                );
                                proof {
                                    assert(m@.keys =~= Seq::<(Key, Seq<u8>)>::empty());
                                    assert(m@.providers =~= Seq::<(Seq<u8>, Key)>::empty());
                                    assert(m@ == basic_model(t, m@.from, m@.to));
                                }
                                Ok(m)
                            } else {
                                Err(ProtocolDecodeError)
                            }
                        },
                        None => Err(ProtocolDecodeError),
                    }
                },
                MsgType::PeersR => match ex_expect(s, i, &keys_bytes()) {
                    Some(j) => match ex_parse_peer_list(s, j) {
                        Some((keys, e)) => match ex_expect(s, e, &crlf_bytes()) {
                            Some(e2) => match ex_expect(s, e2, &crlf_bytes()) {
                                Some(e3) => {
                                    if e3 == s.len() {
                                        let mut m = Message::new(
                                            t,
                                            from,
                                            to,
                                            create_empty_peer_record(),
                                            Key { key: 0 },
                                            Data::create_empty(),
                                        );
                                        m.keys = keys;
                                        proof {
                                            assert(m@.providers =~= Seq::<(Seq<u8>, Key)>::empty());
                                            assert(m@ == MessageModel {
                                                keys: m@.keys,
                                                ..basic_model(t, m@.from, m@.to)
                                            });
                                        }
                                        Ok(m)
                                    } else {
                                        Err(ProtocolDecodeError)
                                    }
                                },
                                None => Err(ProtocolDecodeError),
                            },
                            None => Err(ProtocolDecodeError),
                        },
                        None => Err(ProtocolDecodeError),
                    },
                    None => Err(ProtocolDecodeError),
                },
                MsgType::ProvidersGetReply => match ex_expect(s, i, &providers_bytes()) {
                    Some(j) => match ex_parse_prov_list(s, j) {
                        Some((providers, e)) => match ex_expect(s, e, &crlf_bytes()) {
                            Some(e2) => match ex_expect(s, e2, &crlf_bytes()) {
                                Some(e3) => {
                                    if e3 == s.len() {
                                        let mut m = Message::new(
                                            t,
                                            from,
                                            to,
                                            create_empty_peer_record(),
                                            Key { key: 0 },
                                            Data::create_empty(),
                                        );
                                        m.providers = providers;
                                        proof {
                                            assert(m@.keys =~= Seq::<(Key, Seq<u8>)>::empty());
                                            assert(m@ == MessageModel {
                                                providers: m@.providers,
                                                ..basic_model(t, m@.from, m@.to)
                                            });
                                        }
                                        Ok(m)
                                    } else {
                                        Err(ProtocolDecodeError)
                                    }
                                },
                                None => Err(ProtocolDecodeError),
                            },
                            None => Err(ProtocolDecodeError),
                        },
                        None => Err(ProtocolDecodeError),
                    },
                    None => Err(ProtocolDecodeError),
                },
                MsgType::Insert => match ex_expect(s, i, &provider_bytes()) {
                    Some(j) => {
                        let e = ex_scan_name(s, j);
                        match ex_expect(s, e, &crlf_bytes()) {
                            Some(j2) => match ex_expect(s, j2, &data_key_bytes()) {
                                Some(j3) => match ex_parse_u32(s, j3) {
                                    Some((dk, j4)) => match ex_expect(s, j4, &crlf_bytes()) {
                                        Some(j5) => match ex_expect(s, j5, &crlf_bytes()) {
                                            Some(j6) => match ex_parse_data(s, j6) {
                                                Some((d, j7)) => match ex_expect(
                                                    s,
                                                    j7,
                                                    &crlf_bytes(),
                                                ) {
                                                    Some(j8) => {
                                                        if j8 == s.len() {
                                                            let name = copy_range(s, j, e);
                                                            let m = Message::new(
                                                                t,
                                                                from,
                                                                to,
                                                                (Key { key: 0 }, name),
                                                                Key { key: dk },
                                                                d,
                                                            );
                                                            proof {
                                                                assert(m@.keys =~= Seq::<(
                                                                    Key,
                                                                    Seq<u8>,
                                                                )>::empty());
                                                                assert(m@.providers =~= Seq::<(
                                                                    Seq<u8>,
                                                                    Key,
                                                                )>::empty());
                                                                assert(m@ == MessageModel {
                                                                    key: m@.key,
                                                                    data: m@.data,
                                                                    ..basic_model(
                                                                        t,
                                                                        m@.from,
                                                                        m@.to,
                                                                    )
                                                                });
                                                            }
                                                            Ok(m)
                                                        } else {
                                                            Err(ProtocolDecodeError)
                                                        }
                                                    },
                                                    None => Err(ProtocolDecodeError),
                                                },
                                                None => Err(ProtocolDecodeError),
                                            },
                                            None => Err(ProtocolDecodeError),
                                        },
                                        None => Err(ProtocolDecodeError),
                                    },
                                    None => Err(ProtocolDecodeError),
                                },
                                None => Err(ProtocolDecodeError),
                            },
                            None => Err(ProtocolDecodeError),
                        }
                    },
                    None => Err(ProtocolDecodeError),
                },
                MsgType::PeersIGet | MsgType::PeersRGet => match ex_expect(s, i, &data_key_bytes()) {
                    Some(j3) => match ex_parse_u32(s, j3) {
                        Some((dk, j4)) => match ex_expect(s, j4, &crlf_bytes()) {
                            Some(j5) => match ex_expect(s, j5, &crlf_bytes()) {
                                Some(j6) => match ex_parse_data(s, j6) {
                                    Some((d, j7)) => match ex_expect(s, j7, &crlf_bytes()) {
                                        Some(j8) => {
                                            if j8 == s.len() {
                                                let m = Message::new(
                                                    t,
                                                    from,
                                                    to,
                                                    (Key { key: dk }, Vec::new()),
                                                    Key { key: dk },
                                                    d,
                                                );
                                                proof {
                                                    assert(m@.keys =~= Seq::<(
                                                        Key,
                                                        Seq<u8>,
                                                    )>::empty());
                                                    assert(m@.providers =~= Seq::<(
                                                        Seq<u8>,
                                                        Key,
                                                    )>::empty());
                                                    assert(m@.key.1 =~= Seq::<u8>::empty());
                                                    assert(m@ == MessageModel {
                                                        key: (Key { key: dk }, Seq::empty()),
                                                        data: m@.data,
                                                        ..basic_model(t, m@.from, m@.to)
                                                    });
                                                }
                                                Ok(m)
                                            } else {
                                                Err(ProtocolDecodeError)
                                            }
                                        },
                                        None => Err(ProtocolDecodeError),
                                    },
                                    None => Err(ProtocolDecodeError),
                                },
                                None => Err(ProtocolDecodeError),
                            },
                            None => Err(ProtocolDecodeError),
                        },
                        None => Err(ProtocolDecodeError),
                    },
                    None => Err(ProtocolDecodeError),
                },
            },
            None => Err(ProtocolDecodeError),
        }
    }
}

/// The empty peer record.
pub fn create_empty_peer_record() -> (r: (Key, Vec<u8>))
    ensures
        r.0 == (Key { key: 0 }),
        r.1@ == Seq::<u8>::empty(),
{
    let v: Vec<u8> = Vec::new();
    proof {
        assert(v@ =~= Seq::<u8>::empty());
    }
    (Key { key: 0 }, v)
}

/// Whether a data payload is the absent-content sentinel.
pub fn empty_data(data: &(Key, Data)) -> (r: bool)
    ensures
        r == (data.0.key == 0),
{
    data.0.key == 0
}

/// Parses one whole peer record, as it stands in a KEYS list.
pub fn parse_peer_record(s: &[u8]) -> (r: Option<(Key, Vec<u8>)>)
    ensures
        match r {
            Some(p) => parse_peer(s@, 0) == Some(((p.0, p.1@), s@.len() as int)),
            None => !(parse_peer(s@, 0) matches Some(pr) && pr.1 == s@.len()),
        },
{
    match ex_parse_peer(s, 0) {
        Some((p, j)) => {
            if j == s.len() {
                Some(p)
            } else {
                None
            }
        },
        None => None,
    }
}

/// Parses one whole provider entry, as it stands in a PROVIDERS list.
pub fn parse_providers(s: &[u8]) -> (r: Option<(Vec<u8>, Key)>)
    ensures
        match r {
            Some(p) => parse_prov(s@, 0) == Some(((p.0@, p.1), s@.len() as int)),
            None => !(parse_prov(s@, 0) matches Some(pr) && pr.1 == s@.len()),
        },
{
    match ex_parse_prov(s, 0) {
        Some((p, j)) => {
            if j == s.len() {
                Some(p)
            } else {
                None
            }
        },
        None => None,
    }
}


/// Appends the wire form of a peer record.
fn push_peer(out: &mut Vec<u8>, p: &(Key, Vec<u8>))
    ensures
        final(out)@ == old(out)@ + enc_peer((p.0, p.1@)),
{
    out.push(B_LPAR);
    push_dec(out, p.0.key);
    out.push(B_COMMA);
    push_bytes(out, &p.1);
    out.push(B_RPAR);
    assert(out@ =~= old(out)@ + enc_peer((p.0, p.1@)));
}

/// Appends the wire form of a peer list.
fn push_peer_list(out: &mut Vec<u8>, l: &Vec<(Key, Vec<u8>)>)
    ensures
        final(out)@ == old(out)@ + enc_peer_list(Seq::new(l@.len(), |x: int| peer_view(l@[x]))),
{
    let ghost vl = Seq::new(l@.len(), |x: int| peer_view(l@[x]));
    let mut i: usize = 0;
    proof {
        assert(vl.take(0) =~= Seq::<(Key, Seq<u8>)>::empty());
        assert(enc_peer_list(vl.take(0)) == Seq::<u8>::empty());
        assert(out@ =~= old(out)@ + enc_peer_list(vl.take(0)));
    }
    while i < l.len()
        invariant
            i <= l@.len(),
            vl == Seq::new(l@.len(), |x: int| peer_view(l@[x])),
            out@ == old(out)@ + enc_peer_list(vl.take(i as int)),
        decreases l@.len() - i,
    {
        push_peer(out, &l[i]);
        out.push(B_SPACE);
        i = i + 1;
        proof {
            lemma_enc_peer_list_push(vl.take(i as int - 1), vl[i as int - 1]);
            assert(vl.take(i as int) =~= vl.take(i as int - 1).push(vl[i as int - 1]));
            assert(enc_peer((l@[i as int - 1].0, l@[i as int - 1].1@)) == enc_peer(
                vl[i as int - 1],
            ));
            assert(out@ =~= old(out)@ + enc_peer_list(vl.take(i as int)));
        }
    }
    proof {
        assert(vl.take(l@.len() as int) =~= vl);
    }
}

/// Appends the wire form of a provider list.
fn push_prov_list(out: &mut Vec<u8>, l: &Vec<(Vec<u8>, Key)>)
    ensures
        final(out)@ == old(out)@ + enc_prov_list(Seq::new(l@.len(), |x: int| ((l@[x].0@, l@[x].1)))),
{
    let ghost vl = Seq::new(l@.len(), |x: int| ((l@[x].0@, l@[x].1)));
    let mut i: usize = 0;
    proof {
        assert(vl.take(0) =~= Seq::<(Seq<u8>, Key)>::empty());
        assert(enc_prov_list(vl.take(0)) == Seq::<u8>::empty());
        assert(out@ =~= old(out)@ + enc_prov_list(vl.take(0)));
    }
    while i < l.len()
        invariant
            i <= l@.len(),
            vl == Seq::new(l@.len(), |x: int| ((l@[x].0@, l@[x].1))),
            out@ == old(out)@ + enc_prov_list(vl.take(i as int)),
        decreases l@.len() - i,
    {
        let e = &l[i];
        out.push(B_LPAR);
        push_bytes(out, &e.0);
        out.push(B_COMMA);
        push_dec(out, e.1.key);
        out.push(B_RPAR);
        out.push(B_SPACE);
        i = i + 1;
        proof {
            lemma_enc_prov_list_push(vl.take(i as int - 1), vl[i as int - 1]);
            assert(vl.take(i as int) =~= vl.take(i as int - 1).push(vl[i as int - 1]));
            assert(enc_prov(vl[i as int - 1]) == seq![B_LPAR] + l@[i as int - 1].0@ + seq![B_COMMA]
                + dec_digits(l@[i as int - 1].1.key as nat) + seq![B_RPAR]);
            assert(out@ =~= old(out)@ + enc_prov_list(vl.take(i as int)));
        }
    }
    proof {
        assert(vl.take(l@.len() as int) =~= vl);
    }
}

/// Appends the JSON content line of a payload.
fn push_data(out: &mut Vec<u8>, d: &Data)
    ensures
        final(out)@ == old(out)@ + enc_data(d@),
{
    push_bytes(out, &json_id_bytes());
    push_dec(out, d.id);
    push_bytes(out, &json_vec_bytes());
    let ghost base = out@;
    let mut i: usize = 0;
    proof {
        assert(d.vec@.take(0) =~= Seq::<u8>::empty());
        assert(enc_byte_list(d.vec@.take(0)) == Seq::<u8>::empty());
        assert(out@ =~= base + enc_byte_list(d.vec@.take(0)));
    }
    while i < d.vec.len()
        invariant
            i <= d.vec@.len(),
            out@ == base + enc_byte_list(d.vec@.take(i as int)),
        decreases d.vec@.len() - i,
    {
        if i > 0 {
            out.push(B_COMMA);
        }
        push_dec(out, d.vec[i] as u32);
        i = i + 1;
        proof {
            lemma_enc_byte_list_push(d.vec@.take(i as int - 1), d.vec@[i as int - 1]);
            assert(d.vec@.take(i as int) =~= d.vec@.take(i as int - 1).push(d.vec@[i as int - 1]));
            assert(dec_digits((d.vec@[i as int - 1] as u32) as nat) == dec_digits(
                d.vec@[i as int - 1] as nat,
            ));
            assert(out@ =~= base + enc_byte_list(d.vec@.take(i as int)));
        }
    }
    proof {
        assert(d.vec@.take(d.vec@.len() as int) =~= d.vec@);
    }
    push_bytes(out, &json_filename_bytes());
    push_bytes(out, &d.file_meta.filename);
    push_bytes(out, &json_end_bytes());
    assert(out@ =~= old(out)@ + enc_data(d@));
}

impl Message {
    /// Encodes the frame into its canonical wire form.
    pub fn make_message(&self) -> (r: Vec<u8>)
        ensures
            r@ == enc_msg(self@),
    {
        let mut out: Vec<u8> = Vec::new();
        push_bytes(&mut out, &magic_bytes());
        push_bytes(&mut out, &token_bytes(self.type_of));
        push_bytes(&mut out, &crlf_bytes());
        push_bytes(&mut out, &from_bytes());
        push_peer(&mut out, &self.from);
        push_bytes(&mut out, &crlf_bytes());
        push_bytes(&mut out, &to_bytes());
        push_peer(&mut out, &self.to);
        push_bytes(&mut out, &crlf_bytes());
        assert(out@ =~= enc_hdr(self@));
        let ghost hdr = out@;
        match self.type_of {
            MsgType::PeersR => {
                push_bytes(&mut out, &keys_bytes());
                push_peer_list(&mut out, &self.keys);
                push_bytes(&mut out, &crlf_bytes());
                assert(out@ =~= hdr + enc_body(self@));
            },
            MsgType::ProvidersGetReply => {
                push_bytes(&mut out, &providers_bytes());
                push_prov_list(&mut out, &self.providers);
                push_bytes(&mut out, &crlf_bytes());
                assert(out@ =~= hdr + enc_body(self@));
            },
            MsgType::Insert => {
                push_bytes(&mut out, &provider_bytes());
                push_bytes(&mut out, &self.key.1);
                push_bytes(&mut out, &crlf_bytes());
                push_bytes(&mut out, &data_key_bytes());
                push_dec(&mut out, self.data.0.key);
                push_bytes(&mut out, &crlf_bytes());
                assert(out@ =~= hdr + enc_body(self@));
            },
            MsgType::PeersIGet | MsgType::PeersRGet => {
                push_bytes(&mut out, &data_key_bytes());
                push_dec(&mut out, self.data.0.key);
                push_bytes(&mut out, &crlf_bytes());
                assert(out@ =~= hdr + enc_body(self@));
            },
            _ => {
                assert(enc_body(self@) == Seq::<u8>::empty());
                assert(out@ =~= hdr + enc_body(self@));
            },
        }
        push_bytes(&mut out, &crlf_bytes());
        if message_has_content(self.type_of) {
            push_data(&mut out, &self.data.1);
            push_bytes(&mut out, &crlf_bytes());
        }
        assert(out@ =~= enc_msg(self@));
        out
    }
}


/// The message type named on a frame's first line, if it is well-formed so
/// far: used to tell how many lines the frame still has.
pub open spec fn peek_type_spec(s: Seq<u8>) -> Option<MsgType> {
    match parse_lit(s, 0, lit_magic()) {
        Some(i0) => type_of_token(s.subrange(i0, scan_name(s, i0))),
        None => None,
    }
}

/// Reads the message type off a frame's first line, as `peek_type_spec`.
pub fn peek_type(line: &[u8]) -> (r: Option<MsgType>)
    ensures
        r == peek_type_spec(line@),
{
    match ex_expect(line, 0, &magic_bytes()) {
        Some(i0) => {
            let j = ex_scan_name(line, i0);
            let tok = copy_range(line, i0, j);
            ex_type_of_token(&tok)
        },
        None => None,
    }
}

} // verus!
