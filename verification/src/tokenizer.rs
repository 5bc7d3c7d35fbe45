use vstd::prelude::*;
use vstd::string::StringSliceAdditionalSpecFns;
use vstd::std_specs::iter::IteratorSpec;
use std::collections::{HashMap, HashSet};

verus! {

broadcast use vstd::std_specs::hash::group_hash_axioms;

/// Number of positions kept as context when sampling.
pub const N_CONTEXT: usize = 64;

/// Size at which training stops growing the vocabulary.
const N_TOKENS: usize = 255;

/// Most bytes a token holds.
pub const N_CHARS: usize = 6;

/// A token: up to `N_CHARS` bytes, the used ones first.
#[derive(Clone, Copy, PartialEq, Eq, Hash, PartialOrd, Ord, Debug)]
#[verifier::ext_equal]
pub struct Token {
    pub bytes: [Option<u8>; N_CHARS],
}

/// Code of one byte slot: 0 for an empty slot, the byte plus one otherwise.
pub open spec fn byte_code(b: Option<u8>) -> int {
    match b {
        Some(x) => x as int + 1,
        None => 0,
    }
}

/// The first `k` slots read as a number in base 512.
pub open spec fn code_prefix(s: Seq<Option<u8>>, k: int) -> int
    decreases k,
{
    if k <= 0 {
        0
    } else {
        code_prefix(s, k - 1) * 512 + byte_code(s[k - 1])
    }
}

/// `512^k`.
pub open spec fn pow512(k: int) -> int
    decreases k,
{
    if k <= 0 {
        1
    } else {
        pow512(k - 1) * 512
    }
}

/// A number that names a token: its slots read in base 512. Numbers of two
/// tokens compare as the tokens do (slot by slot, an empty slot first).
pub open spec fn token_code(t: Token) -> int {
    code_prefix(t.bytes@, N_CHARS as int)
}

/// The number that names an ordered pair of tokens.
pub open spec fn pair_code(a: Token, b: Token) -> int {
    token_code(a) * 0x1_0000_0000_0000_0000 + token_code(b)
}

/// Number of empty slots among the first `i`.
pub open spec fn nones_before(s: Seq<Option<u8>>, i: int) -> int
    decreases i,
{
    if i <= 0 {
        0
    } else {
        nones_before(s, i - 1) + if s[i - 1] is None {
            1int
        } else {
            0
        }
    }
}

/// Number of leading used slots.
pub open spec fn lead_some(s: Seq<Option<u8>>) -> nat
    decreases s.len(),
{
    if s.len() == 0 || s[0] is None {
        0
    } else {
        1 + lead_some(s.drop_first())
    }
}

/// Slot `i` of `a` followed by `b`: the empty slots of `a`, in order, take
/// the leading bytes of `b`, as many as fit.
pub open spec fn concat_slot(a: Seq<Option<u8>>, b: Seq<Option<u8>>, i: int) -> Option<u8> {
    if a[i] is Some {
        a[i]
    } else if nones_before(a, i) < lead_some(b) {
        b[nones_before(a, i)]
    } else {
        None
    }
}

/// `a` followed by `b`, cut to `N_CHARS` bytes.
pub open spec fn token_concat(a: Token, b: Token) -> Token {
    let x = a.bytes@;
    let y = b.bytes@;
    Token {
        bytes: [
            concat_slot(x, y, 0),
            concat_slot(x, y, 1),
            concat_slot(x, y, 2),
            concat_slot(x, y, 3),
            concat_slot(x, y, 4),
            concat_slot(x, y, 5),
        ],
    }
}

pub proof fn lemma_code_prefix_bound(s: Seq<Option<u8>>, k: int)
    requires
        0 <= k <= s.len(),
    ensures
        0 <= code_prefix(s, k) < pow512(k),
    decreases k,
{
    if k > 0 {
        lemma_code_prefix_bound(s, k - 1);
        let c = code_prefix(s, k - 1);
        let p = pow512(k - 1);
        let b = byte_code(s[k - 1]);
        assert(0 <= b < 512);
        assert(0 <= c * 512 + b < p * 512) by (nonlinear_arith)
            requires
                0 <= c < p,
                0 <= b < 512,
        ;
    }
}

pub proof fn lemma_token_code_bound(t: Token)
    ensures
        0 <= token_code(t) < 0x40_0000_0000_0000,
{
    lemma_code_prefix_bound(t.bytes@, N_CHARS as int);
    assert(pow512(6) == 0x40_0000_0000_0000) by {
            reveal_with_fuel(pow512, 7);
        }
}

impl Token {
    /// The token holding the single byte `b`.
    pub fn new(b: u8) -> (t: Self)
        ensures
            t.bytes@[0] == Some(b),
            forall|k: int| 1 <= k < N_CHARS ==> t.bytes@[k] is None,
    {
        let bytes: [Option<u8>; N_CHARS] = [Some(b), None, None, None, None, None];
        Self { bytes }
    }

    /// The number that names this token.
    pub fn code(&self) -> (c: u64)
        ensures
            c == token_code(*self),
    {
        let mut c: u64 = 0;
        let mut k: usize = 0;
        while k < N_CHARS
            invariant
                k <= N_CHARS,
                c == code_prefix(self.bytes@, k as int),
            decreases N_CHARS - k,
        {
            proof {
                lemma_code_prefix_bound(self.bytes@, k + 1);
                assert(pow512(k + 1) <= pow512(6)) by {
                    lemma_pow512_mono(k + 1, 6);
                }
                assert(pow512(6) == 0x40_0000_0000_0000) by {
            reveal_with_fuel(pow512, 7);
        }
            }
            let b: u64 = match self.bytes[k] {
                Some(x) => x as u64 + 1,
                None => 0,
            };
            c = c * 512 + b;
            k += 1;
        }
        c
    }
}

pub proof fn lemma_pow512_mono(a: int, b: int)
    requires
        0 <= a <= b,
    ensures
        pow512(a) <= pow512(b),
    decreases b - a,
{
    if b > a {
        lemma_pow512_mono(a, b - 1);
        assert(pow512(b - 1) >= 1) by {
            lemma_pow512_pos(b - 1);
        }
    }
}

pub proof fn lemma_pow512_pos(a: int)
    ensures
        pow512(a) >= 1,
    decreases a,
{
    if a > 0 {
        lemma_pow512_pos(a - 1);
    }
}

/// The number that names the ordered pair `(a, b)`.
pub fn pair_key(a: &Token, b: &Token) -> (k: u128)
    ensures
        k == pair_code(*a, *b),
{
    let ca = a.code();
    let cb = b.code();
    proof {
        lemma_token_code_bound(*a);
        lemma_token_code_bound(*b);
        assert((ca as int) * 0x1_0000_0000_0000_0000 + (cb as int) < 0x40_0000_0000_0000 * 0x1_0000_0000_0000_0000) by (nonlinear_arith)
            requires
                ca < 0x40_0000_0000_0000,
                cb < 0x1_0000_0000_0000_0000,
        ;
    }
    (ca as u128) * 0x1_0000_0000_0000_0000 + (cb as u128)
}

/// The token a code names.
pub fn token_from_code(c: u64) -> (t: Token)
    ensures
        forall|t0: Token| token_code(t0) == c ==> t == t0,
{
    let mut bytes: [Option<u8>; N_CHARS] = [None, None, None, None, None, None];
    let mut rest = c;
    let mut k: usize = N_CHARS;
    while k > 0
        invariant
            k <= N_CHARS,
            forall|t0: Token|
                token_code(t0) == c ==> rest == code_prefix(t0.bytes@, k as int) && forall|j: int|
                    k <= j < N_CHARS ==> bytes@[j] == t0.bytes@[j],
        decreases k,
    {
        k -= 1;
        let d = rest % 512;
        proof {
            assert forall|t0: Token| token_code(t0) == c implies d == byte_code(t0.bytes@[k as int]) && rest / 512
                == code_prefix(t0.bytes@, k as int) by {
                let p = code_prefix(t0.bytes@, k as int);
                let b = byte_code(t0.bytes@[k as int]);
                lemma_code_prefix_bound(t0.bytes@, k as int);
                assert(rest == p * 512 + b);
                assert(0 <= b < 512);
                assert((p * 512 + b) % 512 == b && (p * 512 + b) / 512 == p) by (nonlinear_arith)
                    requires
                        p >= 0,
                        0 <= b < 512,
                ;
            }
        }
        let ghost prev = bytes@;
        bytes[k] = if d == 0 {
            None
        } else {
            Some((d - 1) as u8)
        };
        proof {
            assert(bytes@ == prev.update(k as int, bytes@[k as int]));
            assert forall|t0: Token| token_code(t0) == c implies bytes@[k as int] == t0.bytes@[k as int] by {
                match t0.bytes@[k as int] {
                    Some(x) => {
                        assert(d == x + 1);
                    },
                    None => {},
                }
            }
        }
        rest = rest / 512;
    }
    let t = Token { bytes };
    proof {
        assert forall|t0: Token| token_code(t0) == c implies t == t0 by {
            assert(t.bytes =~= t0.bytes);
            assert(t =~= t0);
        }
    }
    t
}

/// The pair of tokens a pair code names.
pub fn pair_from_code(k: u128) -> (r: (Token, Token))
    ensures
        forall|a: Token, b: Token| pair_code(a, b) == k ==> r == (a, b),
{
    let hi = k / 0x1_0000_0000_0000_0000;
    let lo = k % 0x1_0000_0000_0000_0000;
    let a = token_from_code(if hi <= u64::MAX as u128 { hi as u64 } else { 0 });
    let b = token_from_code(lo as u64);
    proof {
        assert forall|a0: Token, b0: Token| pair_code(a0, b0) == k implies (a, b) == (a0, b0) by {
            lemma_token_code_bound(a0);
            lemma_token_code_bound(b0);
            let x = token_code(a0);
            let y = token_code(b0);
            assert(hi == x && lo == y) by (nonlinear_arith)
                requires
                    k == x * 0x1_0000_0000_0000_0000 + y,
                    0 <= x < 0x40_0000_0000_0000,
                    0 <= y < 0x1_0000_0000_0000_0000,
                    hi == k / 0x1_0000_0000_0000_0000,
                    lo == k % 0x1_0000_0000_0000_0000,
            ;
        }
    }
    (a, b)
}

impl core::ops::Add for Token {
    type Output = Token;

    /// `self` followed by `other`, cut to `N_CHARS` bytes.
    fn add(self, other: Self) -> (out: Token) {
        let mut bytes = self.bytes;
        let mut j: usize = 0;
        let mut i: usize = 0;
        while i < N_CHARS
            invariant_except_break
                j == nones_before(self.bytes@, i as int),
                j <= i,
                j <= lead_some(other.bytes@),
            invariant
                i <= N_CHARS,
                bytes@.len() == N_CHARS,
                forall|k: int| 0 <= k < i ==> bytes@[k] == concat_slot(self.bytes@, other.bytes@, k),
                forall|k: int| i <= k < N_CHARS ==> bytes@[k] == self.bytes@[k],
            ensures
                forall|k: int| 0 <= k < N_CHARS ==> bytes@[k] == concat_slot(self.bytes@, other.bytes@, k),
            decreases N_CHARS - i,
        {
            if self.bytes[i].is_some() {
                i += 1;
                continue;
            }
            if other.bytes[j].is_none() {
                proof {
                    lemma_lead_some(other.bytes@);
                    assert(j >= lead_some(other.bytes@));
                    assert forall|k: int| i <= k < N_CHARS implies bytes@[k] == concat_slot(self.bytes@, other.bytes@, k) by {
                        lemma_nones_before_mono(self.bytes@, i as int, k);
                    }
                }
                break;
            }
            proof {
                lemma_lead_some(other.bytes@);
            }
            let ghost prev = bytes@;
            bytes[i] = other.bytes[j];
            proof {
                assert(bytes@ == prev.update(i as int, other.bytes@[j as int]));
            }
            j += 1;
            i += 1;
        }
        let out = Token { bytes };
        proof {
            assert(out.bytes@ =~= token_concat(self, other).bytes@);
            assert(out.bytes =~= token_concat(self, other).bytes);
            assert(out =~= token_concat(self, other));
        }
        out
    }
}

impl vstd::std_specs::ops::AddSpecImpl for Token {
    open spec fn obeys_add_spec() -> bool {
        true
    }

    open spec fn add_req(self, rhs: Token) -> bool {
        true
    }

    open spec fn add_spec(self, rhs: Token) -> Token {
        token_concat(self, rhs)
    }
}

pub proof fn lemma_lead_some(s: Seq<Option<u8>>)
    ensures
        lead_some(s) <= s.len(),
        forall|k: int| 0 <= k < lead_some(s) ==> s[k] is Some,
        lead_some(s) < s.len() ==> s[lead_some(s) as int] is None,
    decreases s.len(),
{
    if s.len() != 0 && s[0] is Some {
        lemma_lead_some(s.drop_first());
        assert forall|k: int| 0 <= k < lead_some(s) implies s[k] is Some by {
            if k > 0 {
                assert(s[k] == s.drop_first()[k - 1]);
            }
        }
    }
}

pub proof fn lemma_nones_before_mono(s: Seq<Option<u8>>, i: int, k: int)
    requires
        0 <= i <= k,
    ensures
        nones_before(s, i) <= nones_before(s, k),
    decreases k - i,
{
    if k > i {
        lemma_nones_before_mono(s, i, k - 1);
    }
}

/// The bytes of a token, in order.
pub open spec fn spelling(bytes: Seq<Option<u8>>) -> Seq<u8>
    decreases bytes.len(),
{
    if bytes.len() == 0 {
        Seq::empty()
    } else {
        let rest = spelling(bytes.drop_first());
        match bytes[0] {
            Some(b) => seq![b] + rest,
            None => rest,
        }
    }
}

/// The slots hold their bytes first and are empty after them.
pub open spec fn packed(s: Seq<Option<u8>>) -> bool {
    forall|k: int| 0 <= k < s.len() ==> (#[trigger] s[k] is Some <==> k < lead_some(s))
}

/// The bytes of packed slots are their leading slots, in order.
proof fn lemma_spelling_packed(s: Seq<Option<u8>>)
    requires
        packed(s),
    ensures
        spelling(s) == Seq::new(lead_some(s), |k: int| s[k]->0),
    decreases s.len(),
{
    lemma_lead_some(s);
    if s.len() > 0 {
        let rest = s.drop_first();
        assert(lead_some(rest) + (if s[0] is Some { 1int } else { 0 }) == lead_some(s)) by {
            if s[0] is None {
                assert(!(0 < lead_some(s)));
                assert forall|k: int| 0 <= k < rest.len() implies #[trigger] rest[k] is None by {
                    assert(s[k + 1] is None <== !(k + 1 < lead_some(s)));
                }
                lemma_lead_some(rest);
                if lead_some(rest) > 0 {
                    assert(rest[0] is Some);
                }
            }
        }
        assert forall|k: int| 0 <= k < rest.len() implies (#[trigger] rest[k] is Some <==> k < lead_some(rest)) by {
            assert(rest[k] == s[k + 1]);
        }
        lemma_spelling_packed(rest);
    }
    assert(spelling(s) =~= Seq::new(lead_some(s), |k: int| s[k]->0));
}

/// Empty slots before slot `i` of packed slots: those from the first empty
/// slot on.
proof fn lemma_nones_before_packed(s: Seq<Option<u8>>, i: int)
    requires
        packed(s),
        0 <= i <= s.len(),
    ensures
        nones_before(s, i) == if i <= lead_some(s) { 0 } else { i - lead_some(s) },
    decreases i,
{
    if i > 0 {
        lemma_nones_before_packed(s, i - 1);
        assert(s[i - 1] is Some <==> i - 1 < lead_some(s));
    }
}

/// A token is packed.
pub open spec fn packed_token(t: Token) -> bool {
    packed(t.bytes@)
}

/// Adding packed tokens gives a packed token that spells the bytes of the
/// first followed by those of the second, cut to `N_CHARS` bytes.
pub proof fn lemma_add_spelling(a: Token, b: Token)
    requires
        packed_token(a),
        packed_token(b),
    ensures
        packed_token(token_concat(a, b)),
        spelling(a.bytes@).len() + spelling(b.bytes@).len() <= N_CHARS ==> spelling(token_concat(a, b).bytes@)
            == spelling(a.bytes@) + spelling(b.bytes@),
        spelling(a.bytes@).len() + spelling(b.bytes@).len() > N_CHARS ==> spelling(token_concat(a, b).bytes@)
            == (spelling(a.bytes@) + spelling(b.bytes@)).take(N_CHARS as int),
{
    let x = a.bytes@;
    let y = b.bytes@;
    let c = token_concat(a, b).bytes@;
    lemma_lead_some(x);
    lemma_lead_some(y);
    lemma_spelling_packed(x);
    lemma_spelling_packed(y);
    let la = lead_some(x) as int;
    let lb = lead_some(y) as int;
    let n = if la + lb <= N_CHARS { la + lb } else { N_CHARS as int };
    assert forall|i: int| 0 <= i < N_CHARS implies #[trigger] c[i] == (if i < la {
        x[i]
    } else if i < n {
        y[i - la]
    } else {
        None::<u8>
    }) by {
        lemma_nones_before_packed(x, i);
        assert(c[i] == concat_slot(x, y, i));
    }
    lemma_lead_some(c);
    assert(lead_some(c) == n) by {
        if lead_some(c) < n {
            assert(c[lead_some(c) as int] is None);
        }
        if lead_some(c) > n {
            assert(c[n] is Some);
        }
    }
    assert forall|k: int| 0 <= k < c.len() implies (#[trigger] c[k] is Some <==> k < lead_some(c)) by {}
    lemma_spelling_packed(c);
    if la + lb <= N_CHARS {
        assert(spelling(c) =~= spelling(x) + spelling(y));
    } else {
        assert(spelling(c) =~= (spelling(x) + spelling(y)).take(N_CHARS as int));
    }
}

/// A token made of one byte is packed and spells that byte.
pub proof fn lemma_new_spelling(b: u8, t: Token)
    requires
        t.bytes@[0] == Some(b),
        forall|k: int| 1 <= k < N_CHARS ==> t.bytes@[k] is None,
    ensures
        packed_token(t),
        spelling(t.bytes@) == seq![b],
{
    let s = t.bytes@;
    lemma_lead_some(s);
    assert(lead_some(s) == 1) by {
        assert(s[0] is Some);
        if lead_some(s) > 1 {
            assert(s[1] is Some);
        }
    }
    assert forall|k: int| 0 <= k < s.len() implies (#[trigger] s[k] is Some <==> k < lead_some(s)) by {}
    lemma_spelling_packed(s);
    assert(spelling(s) =~= seq![b]);
}

/// The bytes spelled by the live tokens among the first `n` positions, in
/// order.
pub open spec fn live_text(seq: Seq<Token>, dead: Seq<bool>, n: int) -> Seq<u8>
    decreases n,
{
    if n <= 0 {
        Seq::empty()
    } else {
        live_text(seq, dead, n - 1) + if dead[n - 1] {
            Seq::<u8>::empty()
        } else {
            spelling(seq[n - 1].bytes@)
        }
    }
}

/// Every token of `seq` is packed.
pub open spec fn all_packed(seq: Seq<Token>) -> bool {
    forall|p: int| 0 <= p < seq.len() ==> packed_token(#[trigger] seq[p])
}

/// `rules` holds a rule that joins `a` followed by `b`.
pub open spec fn rule_joins(rules: Map<u128, usize>, a: Token, b: Token) -> bool {
    rules.contains_key(pair_code(a, b) as u128)
}

/// Every rule joins two tokens whose bytes fit in one token.
pub open spec fn rules_fit(rules: Map<u128, usize>) -> bool {
    forall|a: Token, b: Token|
        #[trigger] rule_joins(rules, a, b) ==> spelling(a.bytes@).len() + spelling(b.bytes@).len() <= N_CHARS
}

/// Every token of `seq` spells at least one byte.
pub open spec fn all_spelled(seq: Seq<Token>) -> bool {
    forall|p: int| 0 <= p < seq.len() ==> spelling(#[trigger] seq[p].bytes@).len() >= 1
}

/// Equal pair codes name equal pairs.
pub proof fn lemma_pair_code_injective(a: Token, b: Token, c: Token, d: Token)
    requires
        pair_code(a, b) == pair_code(c, d),
    ensures
        a == c,
        b == d,
{
    lemma_token_code_bound(a);
    lemma_token_code_bound(b);
    lemma_token_code_bound(c);
    lemma_token_code_bound(d);
    let m = 0x1_0000_0000_0000_0000int;
    vstd::arithmetic::div_mod::lemma_fundamental_div_mod_converse_div(pair_code(a, b), m, token_code(a), token_code(b));
    vstd::arithmetic::div_mod::lemma_fundamental_div_mod_converse_div(pair_code(c, d), m, token_code(c), token_code(d));
    vstd::arithmetic::div_mod::lemma_fundamental_div_mod_converse_mod(pair_code(a, b), m, token_code(a), token_code(b));
    vstd::arithmetic::div_mod::lemma_fundamental_div_mod_converse_mod(pair_code(c, d), m, token_code(c), token_code(d));
    lemma_token_code_injective(a, c);
    lemma_token_code_injective(b, d);
}

/// When two packed tokens that each spell a byte fit together, the token
/// they make pairs with no token into the pair they formed.
pub proof fn lemma_merged_pair_is_new(a: Token, b: Token, c: Token)
    requires
        packed_token(a),
        packed_token(b),
        spelling(a.bytes@).len() >= 1,
        spelling(b.bytes@).len() >= 1,
        spelling(a.bytes@).len() + spelling(b.bytes@).len() <= N_CHARS,
    ensures
        pair_code(c, token_concat(a, b)) != pair_code(a, b),
        pair_code(token_concat(a, b), c) != pair_code(a, b),
        spelling(token_concat(a, b).bytes@).len() >= 1,
        packed_token(token_concat(a, b)),
{
    lemma_add_spelling(a, b);
    let m = token_concat(a, b);
    if pair_code(c, m) == pair_code(a, b) {
        lemma_pair_code_injective(c, m, a, b);
        assert(spelling(m.bytes@).len() == spelling(a.bytes@).len() + spelling(b.bytes@).len());
    }
    if pair_code(m, c) == pair_code(a, b) {
        lemma_pair_code_injective(m, c, a, b);
        assert(spelling(m.bytes@).len() == spelling(a.bytes@).len() + spelling(b.bytes@).len());
    }
}

/// Merging the pair `pair` at live position `s` with the next live position
/// `e`, when the two tokens fit together, leaves no position standing for
/// `pair` that did not stand before but `s`, and `s` does not stand after.
proof fn lemma_merge_keeps_unstanding(before: Tokenizer, after: Tokenizer, s: int, e: int, p: int, pair: u128)
    requires
        before.links_ok(),
        0 <= s < before.sequence@.len(),
        !before.dead@[s],
        before.next@[s] is Some,
        before.next@[s]->0 as int == e,
        pair_code(before.sequence@[s], before.sequence@[e]) == pair as int,
        packed_token(before.sequence@[s]),
        packed_token(before.sequence@[e]),
        all_packed(before.sequence@),
        spelling(before.sequence@[s].bytes@).len() >= 1,
        spelling(before.sequence@[e].bytes@).len() >= 1,
        spelling(before.sequence@[s].bytes@).len() + spelling(before.sequence@[e].bytes@).len() <= N_CHARS,
        after.sequence@ == before.sequence@.update(s, token_concat(before.sequence@[s], before.sequence@[e])),
        after.dead@ == before.dead@.update(e, true),
        after.next@ == before.next@.update(s, before.next@[e]),
        p == s || !stands(before, p, pair),
    ensures
        !stands(after, p, pair),
{
    let a = before.sequence@[s];
    let b = before.sequence@[e];
    let n = before.sequence@.len() as int;
    if stands(after, p, pair) {
        assert(before.next@[s] is Some);
        assert(s < e < n);
        if p == s {
            assert(after.next@[s] == before.next@[e]);
            assert(before.next@[e] is Some);
            let q = before.next@[e]->0 as int;
            assert(e < q);
            assert(after.sequence@[q] == before.sequence@[q]);
            lemma_merged_pair_is_new(a, b, before.sequence@[q]);
        } else if p == e {
        } else {
            let q = before.next@[p]->0 as int;
            assert(after.next@[p] == before.next@[p]);
            assert(after.dead@[p] == before.dead@[p]);
            assert(!before.dead@[p]);
            assert(before.next@[p] is Some);
            if q == s {
                lemma_merged_pair_is_new(a, b, before.sequence@[p]);
            } else if q == e {
                if p < s {
                    assert(before.dead@[s]);
                } else {
                    assert(before.dead@[p]);
                }
            } else {
                assert(after.sequence@[q] == before.sequence@[q]);
                assert(stands(before, p, pair));
            }
        }
    }
}

/// The backward links agree with the forward ones at live positions: a
/// live position that links forward is what its successor links back to,
/// and a live position links back only to a live position that links
/// forward to it.
pub open spec fn back_linked(t: Tokenizer) -> bool {
    &&& forall|p: int|
        0 <= p < t.sequence@.len() && !t.dead@[p] && #[trigger] t.next@[p] is Some ==> t.prev@[t.next@[p]->0 as int]
            == Some(p as usize)
    &&& forall|q: int|
        0 <= q < t.sequence@.len() && !t.dead@[q] && #[trigger] t.prev@[q] is Some ==> {
            let p = t.prev@[q]->0 as int;
            &&& 0 <= p < t.sequence@.len()
            &&& !t.dead@[p]
            &&& t.next@[p] == Some(q as usize)
        }
}

/// The code of the pair that starts at position `p`.
pub open spec fn key_at(t: Tokenizer, p: int) -> u128 {
    pair_code(t.sequence@[p], t.sequence@[t.next@[p]->0 as int]) as u128
}

/// Every live position that links forward is recorded under the pair it
/// starts, but where that pair is `skip`.
pub open spec fn indexed_but(t: Tokenizer, skip: Option<u128>) -> bool {
    forall|p: int|
        0 <= p < t.sequence@.len() && !t.dead@[p] && #[trigger] t.next@[p] is Some && skip != Some(key_at(t, p))
            ==> positions_of(pairs_view(t.pairs@), key_at(t, p)).contains(p as usize)
}

/// `heap` holds a candidate for pair `key`.
pub open spec fn heap_has(heap: Seq<(usize, u128)>, key: u128) -> bool {
    exists|i: int| 0 <= i < heap.len() && #[trigger] heap[i].1 == key
}

/// Every pair with a rule that starts at a live position has a candidate
/// in the heap, but where that pair is `skip`.
pub open spec fn heap_covers_but(t: Tokenizer, skip: Option<u128>) -> bool {
    forall|p: int|
        0 <= p < t.sequence@.len() && !t.dead@[p] && #[trigger] t.next@[p] is Some && skip != Some(key_at(t, p))
            && t.rules@.contains_key(key_at(t, p)) ==> heap_has(t.heap@, key_at(t, p))
}

/// A merge of live position `s` with the next live position `e`, as
/// `merge_step` makes it, keeps the backward links in agreement, and keeps
/// every pair but `pair` recorded and, without training, offered.
proof fn lemma_merge_keeps_index(before: Tokenizer, after: Tokenizer, s: int, e: int, pair: u128, train: bool)
    requires
        before.links_ok(),
        before.live_links(),
        before.sequence@.len() <= usize::MAX,
        back_linked(before),
        0 <= s < before.sequence@.len(),
        !before.dead@[s],
        before.next@[s] is Some,
        before.next@[s]->0 as int == e,
        after.sequence@ == before.sequence@.update(s, token_concat(before.sequence@[s], before.sequence@[e])),
        after.dead@ == before.dead@.update(e, true),
        after.next@ == before.next@.update(s, before.next@[e]),
        after.prev@ == (if before.next@[e] is Some {
            before.prev@.update(before.next@[e]->0 as int, Some(s as usize))
        } else {
            before.prev@
        }),
        after.rules == before.rules,
        forall|key: u128, pos: usize|
            #[trigger] positions_of(pairs_view(before.pairs@), key).contains(pos) && before.prev@[s] != Some(pos) && pos != e
                ==> positions_of(pairs_view(after.pairs@), key).contains(pos),
        before.prev@[s] matches Some(l) ==> (l != e ==> positions_of(
            pairs_view(after.pairs@),
            pair_code(before.sequence@[l as int], token_concat(before.sequence@[s], before.sequence@[e])) as u128,
        ).contains(l)),
        before.next@[e] matches Some(q) ==> positions_of(
            pairs_view(after.pairs@),
            pair_code(token_concat(before.sequence@[s], before.sequence@[e]), before.sequence@[q as int]) as u128,
        ).contains(s as usize),
        before.heap@.len() <= after.heap@.len(),
        after.heap@.subrange(0, before.heap@.len() as int) == before.heap@,
        !train && before.prev@[s] is Some && before.rules@.contains_key(
            pair_code(
                before.sequence@[before.prev@[s]->0 as int],
                token_concat(before.sequence@[s], before.sequence@[e]),
            ) as u128,
        ) ==> exists|i: int|
            0 <= i < after.heap@.len() && #[trigger] after.heap@[i].1 == pair_code(
                before.sequence@[before.prev@[s]->0 as int],
                token_concat(before.sequence@[s], before.sequence@[e]),
            ) as u128,
        !train && before.next@[e] is Some && before.rules@.contains_key(
            pair_code(
                token_concat(before.sequence@[s], before.sequence@[e]),
                before.sequence@[before.next@[e]->0 as int],
            ) as u128,
        ) ==> exists|i: int|
            0 <= i < after.heap@.len() && #[trigger] after.heap@[i].1 == pair_code(
                token_concat(before.sequence@[s], before.sequence@[e]),
                before.sequence@[before.next@[e]->0 as int],
            ) as u128,
    ensures
        back_linked(after),
        indexed_but(before, Some(pair)) ==> indexed_but(after, Some(pair)),
        !train && heap_covers_but(before, Some(pair)) ==> heap_covers_but(after, Some(pair)),
{
    let n = before.sequence@.len() as int;
    let mg = token_concat(before.sequence@[s], before.sequence@[e]);
    assert(s < e < n);
    assert(!before.dead@[e]);
    assert(before.prev@[e] == Some(s as usize));
    assert forall|p: int|
        0 <= p < after.sequence@.len() && !after.dead@[p] && #[trigger] after.next@[p] is Some implies after.prev@[after.next@[p]->0 as int]
            == Some(p as usize) by {
        if p == s {
            let r = before.next@[e]->0 as int;
            assert(e < r < n);
        } else {
            assert(p != e);
            assert(before.next@[p] is Some);
            let q = before.next@[p]->0 as int;
            assert(before.prev@[q] == Some(p as usize));
            if before.next@[e] is Some {
                let r = before.next@[e]->0 as int;
                if q == r {
                    assert(before.prev@[r] == Some(e as usize));
                }
            }
        }
    }
    assert forall|q: int|
        0 <= q < after.sequence@.len() && !after.dead@[q] && #[trigger] after.prev@[q] is Some implies {
            let p = after.prev@[q]->0 as int;
            &&& 0 <= p < after.sequence@.len()
            &&& !after.dead@[p]
            &&& after.next@[p] == Some(q as usize)
        } by {
        if before.next@[e] is Some && q == before.next@[e]->0 as int {
        } else {
            assert(q != e);
            assert(after.prev@[q] == before.prev@[q]);
            let p = before.prev@[q]->0 as int;
            assert(!before.dead@[p] && before.next@[p] == Some(q as usize));
            if p == e {
                assert(before.next@[e] == Some(q as usize));
            }
            if p == s {
                assert(q == e);
            }
        }
    }
    if indexed_but(before, Some(pair)) {
        assert forall|p: int|
            0 <= p < after.sequence@.len() && !after.dead@[p] && #[trigger] after.next@[p] is Some && Some(pair) != Some(
                key_at(after, p),
            ) implies positions_of(pairs_view(after.pairs@), key_at(after, p)).contains(p as usize) by {
            if p == s {
                let r = before.next@[e]->0 as int;
                assert(e < r < n);
                assert(key_at(after, p) == pair_code(mg, before.sequence@[r]) as u128);
            } else {
                assert(p != e);
                assert(before.next@[p] is Some);
                let q = before.next@[p]->0 as int;
                if q == s {
                    assert(before.prev@[s] == Some(p as usize));
                    assert(key_at(after, p) == pair_code(before.sequence@[p], mg) as u128);
                } else {
                    if q == e {
                        assert(before.prev@[e] == Some(p as usize));
                    }
                    assert(key_at(after, p) == key_at(before, p));
                    assert(positions_of(pairs_view(before.pairs@), key_at(before, p)).contains(p as usize));
                    if before.prev@[s] == Some(p as usize) {
                        assert(before.next@[p] == Some(s as usize));
                    }
                }
            }
        }
    }
    if !train && heap_covers_but(before, Some(pair)) {
        assert forall|p: int|
            0 <= p < after.sequence@.len() && !after.dead@[p] && #[trigger] after.next@[p] is Some && Some(pair) != Some(
                key_at(after, p),
            ) && after.rules@.contains_key(key_at(after, p)) implies heap_has(after.heap@, key_at(after, p)) by {
            if p == s {
                let r = before.next@[e]->0 as int;
                assert(e < r < n);
                assert(key_at(after, p) == pair_code(mg, before.sequence@[r]) as u128);
            } else {
                assert(p != e);
                assert(before.next@[p] is Some);
                let q = before.next@[p]->0 as int;
                if q == s {
                    assert(before.prev@[s] == Some(p as usize));
                    assert(key_at(after, p) == pair_code(before.sequence@[p], mg) as u128);
                } else {
                    if q == e {
                        assert(before.prev@[e] == Some(p as usize));
                    }
                    assert(key_at(after, p) == key_at(before, p));
                    assert(heap_has(before.heap@, key_at(before, p)));
                    let i = choose|i: int| 0 <= i < before.heap@.len() && #[trigger] before.heap@[i].1 == key_at(before, p);
                    assert(after.heap@.subrange(0, before.heap@.len() as int)[i] == after.heap@[i]);
                    assert(after.heap@[i].1 == key_at(after, p));
                }
            }
        }
    }
}

/// Merging `pair` in `t` without training, with packed tokens that each
/// spell a byte, where the two tokens of `pair` fit together.
pub open spec fn merge_ready(t: Tokenizer, pair: u128, train: bool) -> bool {
    &&& !train
    &&& all_packed(t.sequence@)
    &&& all_spelled(t.sequence@)
    &&& pair_fits(pair)
}

/// The two tokens of the pair with code `pair` fit together in one token.
pub open spec fn pair_fits(pair: u128) -> bool {
    forall|a: Token, b: Token|
        #[trigger] pair_code(a, b) == pair as int ==> spelling(a.bytes@).len() + spelling(b.bytes@).len() <= N_CHARS
}

/// When the rules fit, each pair that has a rule fits.
pub proof fn lemma_ruled_pair_fits(rules: Map<u128, usize>, pair: u128)
    requires
        rules_fit(rules),
        rules.contains_key(pair),
    ensures
        pair_fits(pair),
{
    assert forall|a: Token, b: Token| #[trigger] pair_code(a, b) == pair as int implies spelling(a.bytes@).len() + spelling(
        b.bytes@,
    ).len() <= N_CHARS by {
        assert(rule_joins(rules, a, b));
    }
}

/// Taking one candidate out of the heap leaves every other pair offered.
proof fn lemma_pop_keeps_cover(st: Tokenizer, t: Tokenizer, i: int)
    requires
        heap_covers_but(st, None),
        0 <= i < st.heap@.len(),
        t.heap@ == st.heap@.remove(i),
        t.sequence == st.sequence,
        t.next == st.next,
        t.dead == st.dead,
        t.rules == st.rules,
    ensures
        heap_covers_but(t, Some(st.heap@[i].1)),
{
    let before = st.heap@;
    assert forall|p: int|
        0 <= p < t.sequence@.len() && !t.dead@[p] && #[trigger] t.next@[p] is Some && Some(before[i].1) != Some(key_at(t, p))
            && t.rules@.contains_key(key_at(t, p)) implies heap_has(t.heap@, key_at(t, p)) by {
        assert(key_at(t, p) == key_at(st, p));
        assert(heap_has(before, key_at(st, p)));
        let h = choose|h: int| 0 <= h < before.len() && #[trigger] before[h].1 == key_at(st, p);
        if h < i {
            assert(t.heap@[h] == before[h]);
        } else {
            assert(h != i);
            assert(t.heap@[h - 1] == before[h]);
        }
    }
}

/// Token `t` is a single byte, or is made, in at most `n` merges, from two
/// such tokens whose pair `rules` holds.
pub open spec fn built(rules: Map<u128, usize>, t: Token, n: nat) -> bool
    decreases n,
{
    if n == 0 {
        packed_token(t) && spelling(t.bytes@).len() == 1
    } else {
        built(rules, t, (n - 1) as nat) || exists|a: Token, b: Token|
            #[trigger] token_concat(a, b) == t && rules.contains_key(pair_code(a, b) as u128) && built(
                rules,
                a,
                (n - 1) as nat,
            ) && built(rules, b, (n - 1) as nat)
    }
}

/// Every live token of `t` is made from single bytes by merges of pairs
/// that `rules` holds, in at most as many merges as have killed positions.
pub open spec fn all_built(t: Tokenizer, rules: Map<u128, usize>) -> bool {
    forall|p: int|
        0 <= p < t.sequence@.len() && !t.dead@[p] ==> built(
            rules,
            #[trigger] t.sequence@[p],
            (t.sequence@.len() - live_count(t.dead@)) as nat,
        )
}

/// A token made in `m` merges is made in any larger number.
pub proof fn lemma_built_mono(rules: Map<u128, usize>, t: Token, m: nat, n: nat)
    requires
        m <= n,
        built(rules, t, m),
    ensures
        built(rules, t, n),
    decreases n,
{
    if n > m {
        lemma_built_mono(rules, t, m, (n - 1) as nat);
    }
}

/// At most all positions are live.
pub proof fn lemma_live_count_le(dead: Seq<bool>)
    ensures
        live_count(dead) <= dead.len(),
    decreases dead.len(),
{
    if dead.len() > 0 {
        lemma_live_count_le(dead.drop_last());
    }
}

/// Every candidate in `heap` names a pair that `rules` holds, with the
/// number of rules less its rank as priority.
pub open spec fn heap_ranked(heap: Seq<(usize, u128)>, rules: Map<u128, usize>) -> bool {
    forall|i: int|
        0 <= i < heap.len() ==> rules.contains_key(#[trigger] heap[i].1) && heap[i].0 == (rules.len()
            - rules[heap[i].1]) as usize
}

/// No pair that starts at a live position of `t` has a rule of a lower
/// rank than the rule of `key`.
pub open spec fn lowest_rule(t: Tokenizer, key: u128) -> bool {
    forall|p: int|
        0 <= p < t.sequence@.len() && !t.dead@[p] && #[trigger] t.next@[p] is Some && t.rules@.contains_key(key_at(t, p))
            ==> t.rules@[key] <= t.rules@[key_at(t, p)]
}

/// One round of encoding from `a` to `b`: `key` has a rule, no pair
/// standing in `a` has a rule of a lower rank, and `key` is merged wherever
/// it stands, keeping the text; nothing changes when it stands nowhere.
pub open spec fn encode_round(a: Tokenizer, b: Tokenizer, key: u128) -> bool {
    &&& a.rules@.contains_key(key)
    &&& lowest_rule(a, key)
    &&& b.rules == a.rules
    &&& b.sequence@.len() == a.sequence@.len()
    &&& live_text(b.sequence@, b.dead@, b.sequence@.len() as int) == live_text(a.sequence@, a.dead@, a.sequence@.len() as int)
    &&& forall|p: int| 0 <= p < a.dead@.len() && #[trigger] a.dead@[p] ==> b.dead@[p]
    &&& forall|p: int| !stands(b, p, key)
    &&& (forall|p: int| !stands(a, p, key)) ==> b.sequence == a.sequence && b.dead == a.dead && b.next == a.next
}

/// `t` holds the bytes `b` as single-byte tokens, all live, each linked to
/// the next.
pub open spec fn fresh_text(t: Tokenizer, b: Seq<u8>) -> bool {
    &&& t.sequence@ == byte_tokens(b)
    &&& t.dead@.len() == b.len()
    &&& forall|p: int| 0 <= p < b.len() ==> !#[trigger] t.dead@[p]
    &&& forall|p: int| 0 <= p < b.len() ==> #[trigger] t.next@[p] == (if p + 1 < b.len() {
        Some((p + 1) as usize)
    } else {
        None
    })
}

/// `rounds` runs from the single-byte tokens of `b`, one round of encoding
/// per entry of `keys`.
pub open spec fn encode_trace(rounds: Seq<Tokenizer>, keys: Seq<u128>, b: Seq<u8>) -> bool {
    &&& rounds.len() == keys.len() + 1
    &&& fresh_text(rounds[0], b)
    &&& forall|j: int| #![trigger keys[j]] 0 <= j < keys.len() ==> encode_round(rounds[j], rounds[j + 1], keys[j])
}

/// `a` and `b` hold the same tokens, links and rules.
pub open spec fn same_tokens(a: Tokenizer, b: Tokenizer) -> bool {
    &&& a.sequence == b.sequence
    &&& a.dead == b.dead
    &&& a.next == b.next
    &&& a.rules == b.rules
}

/// Taking the greatest candidate `rule` from a heap that offers every
/// standing pair with a rule, by rank, and merging it to reach `after`, is
/// one round of encoding from any state with the same tokens.
proof fn lemma_encode_round(st: Tokenizer, a: Tokenizer, after: Tokenizer, rule: (usize, u128), i: int)
    requires
        0 <= i < st.heap@.len(),
        st.heap@[i] == rule,
        forall|k: int| 0 <= k < st.heap@.len() ==> !entry_gt(#[trigger] st.heap@[k], rule),
        heap_covers_but(st, None),
        heap_ranked(st.heap@, st.rules@),
        st.rules_ok(),
        st.rules@.len() <= usize::MAX,
        same_tokens(a, st),
        after.rules == st.rules,
        after.sequence@.len() == st.sequence@.len(),
        live_text(after.sequence@, after.dead@, after.sequence@.len() as int) == live_text(
            st.sequence@,
            st.dead@,
            st.sequence@.len() as int,
        ),
        forall|p: int| 0 <= p < st.dead@.len() && #[trigger] st.dead@[p] ==> after.dead@[p],
        forall|p: int| !stands(after, p, rule.1),
        !good_key(st, rule.1) ==> after.sequence == st.sequence && after.dead == st.dead && after.next == st.next,
    ensures
        encode_round(a, after, rule.1),
{
    let key = rule.1;
    let heap = st.heap@;
    assert(heap[i].1 == key);
    assert(st.rules@.contains_key(key));
    assert forall|p: int|
        0 <= p < a.sequence@.len() && !a.dead@[p] && #[trigger] a.next@[p] is Some && a.rules@.contains_key(key_at(a, p))
            implies a.rules@[key] <= a.rules@[key_at(a, p)] by {
        assert(key_at(a, p) == key_at(st, p));
        assert(st.next@[p] is Some);
        assert(heap_has(heap, key_at(st, p)));
        let h = choose|h: int| 0 <= h < heap.len() && #[trigger] heap[h].1 == key_at(st, p);
        assert(!entry_gt(heap[h], rule));
        let len = st.rules@.len();
        assert(heap[h].0 == (len - st.rules@[key_at(st, p)]) as usize);
        assert(rule.0 == (len - st.rules@[key]) as usize);
        assert(st.rules@[key_at(st, p)] <= len);
        assert(st.rules@[key] <= len);
    }
    if forall|p: int| !stands(a, p, key) {
        assert(!good_key(st, key)) by {
            if good_key(st, key) {
                let q = choose|q: usize| #[trigger] positions_of(pairs_view(st.pairs@), key).contains(q) && stands(st, q as int, key);
                assert(stands(a, q as int, key));
            }
        }
    }
}

/// A trace extended by one more round is a trace.
proof fn lemma_trace_push(rounds: Seq<Tokenizer>, keys: Seq<u128>, b: Seq<u8>, next: Tokenizer, key: u128)
    requires
        encode_trace(rounds, keys, b),
        encode_round(rounds.last(), next, key),
    ensures
        encode_trace(rounds.push(next), keys.push(key), b),
{
    let r = rounds.push(next);
    let k = keys.push(key);
    assert(r[0] == rounds[0]);
    assert forall|j: int| #![trigger k[j]] 0 <= j < k.len() implies encode_round(r[j], r[j + 1], k[j]) by {
        if j < keys.len() {
            assert(r[j] == rounds[j]);
            assert(r[j + 1] == rounds[j + 1]);
            assert(k[j] == keys[j]);
            assert(encode_round(rounds[j], rounds[j + 1], keys[j]));
        } else {
            assert(r[j] == rounds.last());
        }
    }
}

/// A merge of two live tokens whose pair `rules` holds keeps every live
/// token made from single bytes by such merges.
proof fn lemma_merge_keeps_built(before: Tokenizer, after: Tokenizer, s: int, e: int, rules: Map<u128, usize>)
    requires
        all_built(before, rules),
        before.links_ok(),
        before.live_links(),
        0 <= s < before.sequence@.len(),
        !before.dead@[s],
        before.next@[s] is Some,
        before.next@[s]->0 as int == e,
        rules.contains_key(pair_code(before.sequence@[s], before.sequence@[e]) as u128),
        after.sequence@ == before.sequence@.update(s, token_concat(before.sequence@[s], before.sequence@[e])),
        after.dead@ == before.dead@.update(e, true),
        live_count(after.dead@) + 1 == live_count(before.dead@),
    ensures
        all_built(after, rules),
{
    let n = before.sequence@.len() as int;
    lemma_live_count_le(before.dead@);
    let d = (n - live_count(before.dead@)) as nat;
    let d1 = (n - live_count(after.dead@)) as nat;
    assert(d1 == d + 1);
    assert(!before.dead@[e]);
    let a = before.sequence@[s];
    let b = before.sequence@[e];
    assert(built(rules, a, d));
    assert(built(rules, b, d));
    assert(built(rules, token_concat(a, b), d1)) by {
        assert(token_concat(a, b) == token_concat(a, b));
    }
    assert forall|p: int| 0 <= p < after.sequence@.len() && !after.dead@[p] implies built(
        rules,
        #[trigger] after.sequence@[p],
        d1,
    ) by {
        if p != s {
            assert(after.sequence@[p] == before.sequence@[p]);
            assert(!before.dead@[p]);
            lemma_built_mono(rules, before.sequence@[p], d, d1);
        }
    }
}

/// Every candidate in `heap` names a pair that `rules` holds.
pub open spec fn heap_ruled(heap: Seq<(usize, u128)>, rules: Map<u128, usize>) -> bool {
    forall|i: int| 0 <= i < heap.len() ==> rules.contains_key(#[trigger] heap[i].1)
}

/// Merging the live position `start` with the next live position `end`
/// keeps the text when the merged token spells both.
proof fn lemma_live_text_merge(seq: Seq<Token>, dead: Seq<bool>, start: int, end: int, merged: Token, k: int)
    requires
        0 <= start < end < seq.len(),
        dead.len() == seq.len(),
        !dead[start],
        !dead[end],
        forall|m: int| start < m < end ==> #[trigger] dead[m],
        spelling(merged.bytes@) == spelling(seq[start].bytes@) + spelling(seq[end].bytes@),
        0 <= k <= seq.len(),
    ensures
        k <= start ==> live_text(seq.update(start, merged), dead.update(end, true), k) == live_text(seq, dead, k),
        start < k <= end ==> live_text(seq.update(start, merged), dead.update(end, true), k) == live_text(seq, dead, k)
            + spelling(seq[end].bytes@),
        end < k ==> live_text(seq.update(start, merged), dead.update(end, true), k) == live_text(seq, dead, k),
    decreases k,
{
    let s2 = seq.update(start, merged);
    let d2 = dead.update(end, true);
    if k > 0 {
        lemma_live_text_merge(seq, dead, start, end, merged, k - 1);
        let a = live_text(seq, dead, k - 1);
        let e = spelling(seq[end].bytes@);
        if k - 1 == start {
            assert(live_text(s2, d2, k) =~= live_text(seq, dead, k) + e);
        } else if start < k - 1 && k - 1 < end {
            assert(dead[k - 1]);
            assert(live_text(s2, d2, k) =~= live_text(seq, dead, k) + e);
        } else if k - 1 == end {
            assert(live_text(s2, d2, k) =~= live_text(seq, dead, k));
        }
    }
}

/// The single-byte tokens of `b`, all live, spell `b`.
proof fn lemma_live_text_bytes(b: Seq<u8>, dead: Seq<bool>, k: int)
    requires
        dead.len() == b.len(),
        forall|p: int| 0 <= p < dead.len() ==> !#[trigger] dead[p],
        0 <= k <= b.len(),
    ensures
        live_text(byte_tokens(b), dead, k) == b.take(k),
        all_packed(byte_tokens(b)),
    decreases k,
{
    assert forall|p: int| 0 <= p < b.len() implies packed_token(#[trigger] byte_tokens(b)[p]) by {
        lemma_new_spelling(b[p], single_token(b[p]));
    }
    if k > 0 {
        lemma_live_text_bytes(b, dead, k - 1);
        lemma_new_spelling(b[k - 1], single_token(b[k - 1]));
        assert(live_text(byte_tokens(b), dead, k) =~= b.take(k));
    } else {
        assert(b.take(0) =~= Seq::<u8>::empty());
    }
}

/// The bytes that the tokens `ids` spell: ids outside the vocabulary (the
/// marker of the start and end of a text) spell nothing.
pub open spec fn decoded(vocab: Seq<Token>, ids: Seq<usize>) -> Seq<u8>
    decreases ids.len(),
{
    if ids.len() == 0 {
        Seq::empty()
    } else {
        let head = if ids[0] < vocab.len() {
            spelling(vocab[ids[0] as int].bytes@)
        } else {
            Seq::empty()
        };
        head + decoded(vocab, ids.drop_first())
    }
}

/// `decoded` over a concatenation.
pub proof fn lemma_decoded_push(vocab: Seq<Token>, ids: Seq<usize>, id: usize)
    ensures
        decoded(vocab, ids.push(id)) == decoded(vocab, ids) + decoded(vocab, seq![id]),
    decreases ids.len(),
{
    if ids.len() == 0 {
        assert(ids.push(id) =~= seq![id]);
        assert(decoded(vocab, Seq::<usize>::empty()) =~= Seq::<u8>::empty());
    } else {
        lemma_decoded_push(vocab, ids.drop_first(), id);
        assert(ids.push(id).drop_first() =~= ids.drop_first().push(id));
        assert(decoded(vocab, seq![id]).len() >= 0);
    }
}

/// `decoded` over a concatenation.
pub proof fn lemma_decoded_concat(vocab: Seq<Token>, a: Seq<usize>, b: Seq<usize>)
    ensures
        decoded(vocab, a + b) == decoded(vocab, a) + decoded(vocab, b),
    decreases a.len(),
{
    if a.len() == 0 {
        assert(a + b =~= b);
        assert(decoded(vocab, a) =~= Seq::<u8>::empty());
    } else {
        lemma_decoded_concat(vocab, a.drop_first(), b);
        assert((a + b).drop_first() =~= a.drop_first() + b);
        assert(decoded(vocab, a + b) =~= decoded(vocab, a) + decoded(vocab, b));
    }
}

/// The encoder maps the code of each vocabulary token it knows to that
/// token's index.
pub open spec fn encoder_spells(vocab: Seq<Token>, enc: Map<u64, usize>) -> bool {
    forall|c: u64|
        #[trigger] enc.contains_key(c) ==> enc[c] < vocab.len() && token_code(vocab[enc[c] as int]) == c
}

/// The encoder knows every live token among the first `n` positions.
pub open spec fn all_known(seq: Seq<Token>, dead: Seq<bool>, enc: Map<u64, usize>, n: int) -> bool {
    forall|p: int| 0 <= p < n && !dead[p] ==> enc.contains_key(token_code(#[trigger] seq[p]) as u64)
}

/// Different tokens have different codes.
pub proof fn lemma_token_code_injective(a: Token, b: Token)
    requires
        token_code(a) == token_code(b),
    ensures
        a == b,
{
    let x = a.bytes@;
    let y = b.bytes@;
    lemma_code_prefix_agree(x, y, N_CHARS as int);
    assert(a.bytes@ =~= b.bytes@);
    assert(a.bytes =~= b.bytes);
    assert(a =~= b);
}

/// Equal codes of the first `k` slots mean equal slots.
proof fn lemma_code_prefix_agree(x: Seq<Option<u8>>, y: Seq<Option<u8>>, k: int)
    requires
        0 <= k <= x.len(),
        k <= y.len(),
        code_prefix(x, k) == code_prefix(y, k),
    ensures
        forall|j: int| 0 <= j < k ==> #[trigger] x[j] == y[j],
    decreases k,
{
    if k > 0 {
        let p = code_prefix(x, k - 1);
        let q = code_prefix(y, k - 1);
        let r = byte_code(x[k - 1]);
        let s = byte_code(y[k - 1]);
        lemma_code_prefix_bound(x, k - 1);
        lemma_code_prefix_bound(y, k - 1);
        assert(p == q && r == s) by (nonlinear_arith)
            requires
                p * 512 + r == q * 512 + s,
                0 <= r < 512,
                0 <= s < 512,
                0 <= p,
                0 <= q,
        ;
        assert(x[k - 1] == y[k - 1]) by {
            match x[k - 1] {
                Some(u) => {
                    assert(y[k - 1] is Some);
                },
                None => {},
            }
        }
        lemma_code_prefix_agree(x, y, k - 1);
    }
}

/// Decoding the ids of the live tokens spells the live tokens, when the
/// encoder knows all of them and maps each code to its token.
proof fn lemma_decoded_live(vocab: Seq<Token>, seq: Seq<Token>, dead: Seq<bool>, enc: Map<u64, usize>, k: int)
    requires
        encoder_spells(vocab, enc),
        all_known(seq, dead, enc, k),
    ensures
        decoded(vocab, live_ids(seq, dead, enc, k)) == live_text(seq, dead, k),
    decreases k,
{
    if k > 0 {
        lemma_decoded_live(vocab, seq, dead, enc, k - 1);
        let ids = live_ids(seq, dead, enc, k - 1);
        if !dead[k - 1] {
            let t = seq[k - 1];
            lemma_token_code_bound(t);
            let c = token_code(t) as u64;
            assert(enc.contains_key(c));
            let id = enc[c];
            lemma_decoded_push(vocab, ids, id);
            assert(live_ids(seq, dead, enc, k) =~= ids.push(id));
            assert(token_code(vocab[id as int]) == token_code(t));
            lemma_token_code_injective(vocab[id as int], t);
            assert(seq![id].drop_first() =~= Seq::<usize>::empty());
            assert(decoded(vocab, Seq::<usize>::empty()) =~= Seq::<u8>::empty());
            assert(decoded(vocab, seq![id]) =~= spelling(t.bytes@));
        } else {
            assert(live_ids(seq, dead, enc, k) =~= ids);
            assert(live_text(seq, dead, k) =~= live_text(seq, dead, k - 1));
        }
    }
}

/// Byte-pair tokenizer. Training learns merge rules from text; encoding
/// applies them to an input and maps the resulting tokens to ids.
///
/// The scratch state holds the sequence being merged: `prev` and `next` link
/// its positions, `dead` marks the positions merged into their left
/// neighbour, `pairs` indexes the positions of each adjacent pair (keyed by
/// `pair_code`) and `heap` holds candidate pairs with their priority.
pub struct Tokenizer {
    pub rules: HashMap<u128, usize>,
    pub encoder: HashMap<u64, usize>,
    pub vocab: Vec<Token>,
    pub sequence: Vec<Token>,
    pub prev: Vec<Option<usize>>,
    pub next: Vec<Option<usize>>,
    pub dead: Vec<bool>,
    pub pairs: HashMap<u128, HashSet<usize>>,
    pub heap: Vec<(usize, u128)>,
    pub bos: usize,
}

/// The positions recorded for each pair.
pub open spec fn pairs_view(pairs: Map<u128, HashSet<usize>>) -> Map<u128, Set<usize>> {
    pairs.map_values(|s: HashSet<usize>| s@)
}

/// The positions recorded for pair `key` (none when the key is absent).
pub open spec fn positions_of(pv: Map<u128, Set<usize>>, key: u128) -> Set<usize> {
    if pv.contains_key(key) {
        pv[key]
    } else {
        Set::empty()
    }
}

/// `pv` with `pos` recorded for `key`.
pub open spec fn record(pv: Map<u128, Set<usize>>, key: u128, pos: usize) -> Map<u128, Set<usize>> {
    pv.insert(key, positions_of(pv, key).insert(pos))
}

/// `pv` with `pos` no longer recorded for `key` (the key itself stays).
pub open spec fn unrecord(pv: Map<u128, Set<usize>>, key: u128, pos: usize) -> Map<u128, Set<usize>> {
    if pv.contains_key(key) {
        pv.insert(key, pv[key].remove(pos))
    } else {
        pv
    }
}

/// Number of positions not marked dead.
pub open spec fn live_count(dead: Seq<bool>) -> nat
    decreases dead.len(),
{
    if dead.len() == 0 {
        0
    } else {
        live_count(dead.drop_last()) + if dead.last() {
            0nat
        } else {
            1nat
        }
    }
}

/// The single-byte tokens of `b`.
pub open spec fn byte_tokens(b: Seq<u8>) -> Seq<Token> {
    Seq::new(b.len(), |k: int| single_token(b[k]))
}

/// The token holding just `b`.
pub open spec fn single_token(b: u8) -> Token {
    Token { bytes: [Some(b), None, None, None, None, None] }
}

/// The ids of the live tokens among the first `n` positions, in order,
/// skipping tokens the encoder does not know.
pub open spec fn live_ids(seq: Seq<Token>, dead: Seq<bool>, enc: Map<u64, usize>, n: int) -> Seq<usize>
    decreases n,
{
    if n <= 0 {
        Seq::empty()
    } else {
        let c = token_code(seq[n - 1]) as u64;
        live_ids(seq, dead, enc, n - 1) + if !dead[n - 1] && enc.contains_key(c) {
            seq![enc[c]]
        } else {
            Seq::empty()
        }
    }
}

/// Weight of a candidate: 2 when it records a stale count of positions for
/// a pair that is still indexed, 1 otherwise.
pub open spec fn entry_weight(e: (usize, u128), pv: Map<u128, Set<usize>>) -> nat {
    if pv.contains_key(e.1) && e.0 != pv[e.1].len() {
        2
    } else {
        1
    }
}

/// Total weight of the candidates in `h`.
pub open spec fn heap_weight(h: Seq<(usize, u128)>, pv: Map<u128, Set<usize>>) -> nat
    decreases h.len(),
{
    if h.len() == 0 {
        0
    } else {
        heap_weight(h.drop_last(), pv) + entry_weight(h.last(), pv)
    }
}

pub proof fn lemma_heap_weight_push(h: Seq<(usize, u128)>, e: (usize, u128), pv: Map<u128, Set<usize>>)
    ensures
        heap_weight(h.push(e), pv) == heap_weight(h, pv) + entry_weight(e, pv),
{
    assert(h.push(e).drop_last() =~= h);
}

pub proof fn lemma_heap_weight_remove(h: Seq<(usize, u128)>, i: int, pv: Map<u128, Set<usize>>)
    requires
        0 <= i < h.len(),
    ensures
        heap_weight(h.remove(i), pv) + entry_weight(h[i], pv) == heap_weight(h, pv),
    decreases h.len(),
{
    if i == h.len() - 1 {
        assert(h.remove(i) =~= h.drop_last());
    } else {
        lemma_heap_weight_remove(h.drop_last(), i, pv);
        assert(h.remove(i).drop_last() =~= h.drop_last().remove(i));
        assert(h.remove(i).last() == h.last());
    }
}

/// Dropping the index of one pair does not add weight to any candidate.
pub proof fn lemma_heap_weight_unindex(h: Seq<(usize, u128)>, pv: Map<u128, Set<usize>>, key: u128)
    ensures
        heap_weight(h, pv.remove(key)) <= heap_weight(h, pv),
    decreases h.len(),
{
    if h.len() > 0 {
        lemma_heap_weight_unindex(h.drop_last(), pv, key);
    }
}

/// Number of bytes of `s`.
pub open spec fn byte_len(s: String) -> nat {
    vstd::utf8::encode_utf8(s@).len()
}

/// Number of bytes in the first `k` lines.
pub open spec fn total_len(lines: Seq<String>, k: int) -> int
    decreases k,
{
    if k <= 0 {
        0
    } else {
        total_len(lines, k - 1) + byte_len(lines[k - 1])
    }
}

pub proof fn lemma_total_len_mono(lines: Seq<String>, j: int, k: int)
    requires
        0 <= j <= k,
    ensures
        0 <= total_len(lines, j) <= total_len(lines, k),
    decreases k,
{
    if k > j {
        lemma_total_len_mono(lines, j, k - 1);
    } else if k > 0 {
        lemma_total_len_mono(lines, k - 1, k - 1);
    }
}

/// Codes of the tokens in `v`.
pub open spec fn codes_of(v: Seq<Token>) -> Seq<int> {
    v.map_values(|t: Token| token_code(t))
}

/// In `t`, the live position `p` and the next live position hold the two
/// tokens of the pair with code `pair`.
pub open spec fn stands(t: Tokenizer, p: int, pair: u128) -> bool {
    &&& 0 <= p < t.sequence@.len()
    &&& !t.dead@[p]
    &&& t.next@[p] is Some
    &&& (t.next@[p]->0 as int) < t.sequence@.len()
    &&& pair_code(t.sequence@[p], t.sequence@[t.next@[p]->0 as int]) == pair as int
}

/// Each pair recorded in `pv` is offered by some candidate of `heap` with a
/// priority at least its count of positions.
pub open spec fn heap_offers(heap: Seq<(usize, u128)>, pv: Map<u128, Set<usize>>) -> bool {
    forall|key: u128|
        #[trigger] pv.contains_key(key) ==> exists|i: int|
            0 <= i < heap.len() && (#[trigger] heap[i]).1 == key && heap[i].0 >= pv[key].len()
}

/// `key` is a recorded pair of `t` with at least as many positions as any
/// pair that stands somewhere in `t`.
pub open spec fn most_positions(t: Tokenizer, key: u128) -> bool {
    &&& pairs_view(t.pairs@).contains_key(key)
    &&& forall|k: u128|
        #[trigger] good_key(t, k) ==> positions_of(pairs_view(t.pairs@), k).len() <= positions_of(
            pairs_view(t.pairs@),
            key,
        ).len()
}

/// Taking candidate `i` (for `pair`) out of a heap that offers every pair of
/// `pv` and putting back the entries `extra` offers every pair of `pv2`
/// whose counts are at most those of `pv`, `pair` itself when `extra`
/// offers it.
proof fn lemma_heap_offers_remove(
    h0: Seq<(usize, u128)>,
    i: int,
    extra: Seq<(usize, u128)>,
    pv: Map<u128, Set<usize>>,
    pv2: Map<u128, Set<usize>>,
    pair: u128,
)
    requires
        heap_offers(h0, pv),
        0 <= i < h0.len(),
        h0[i].1 == pair,
        forall|key: u128|
            #[trigger] pv2.contains_key(key) && key != pair ==> pv.contains_key(key) && pv2[key].len() <= pv[key].len(),
        pv2.contains_key(pair) ==> exists|j: int|
            0 <= j < extra.len() && (#[trigger] extra[j]).1 == pair && extra[j].0 >= pv2[pair].len(),
    ensures
        heap_offers(h0.remove(i) + extra, pv2),
{
    let h = h0.remove(i) + extra;
    assert forall|key: u128| #[trigger] pv2.contains_key(key) implies exists|j: int|
        0 <= j < h.len() && (#[trigger] h[j]).1 == key && h[j].0 >= pv2[key].len() by {
        if key == pair {
            let j = choose|j: int| 0 <= j < extra.len() && (#[trigger] extra[j]).1 == pair && extra[j].0 >= pv2[pair].len();
            assert(h[h0.len() - 1 + j] == extra[j]);
        } else {
            assert(pv.contains_key(key));
            let j = choose|j: int| 0 <= j < h0.len() && (#[trigger] h0[j]).1 == key && h0[j].0 >= pv[key].len();
            assert(j != i);
            if j < i {
                assert(h[j] == h0[j]);
            } else {
                assert(h[j - 1] == h0[j]);
            }
        }
    }
}

/// The positions recorded for pair `key` once the first `j` of `lines` are
/// indexed after the positions `pv` records, the text starting at
/// position `l`: the positions of `pv`, and each position of a line whose
/// byte and the next one form the pair.
pub open spec fn trained_positions(pv: Map<u128, Set<usize>>, l: int, lines: Seq<String>, j: int, key: u128) -> Set<usize>
    decreases j,
{
    if j <= 0 {
        positions_of(pv, key)
    } else {
        let b = vstd::utf8::encode_utf8(lines[j - 1]@);
        let lj = l + total_len(lines, j - 1);
        let m = b.len() as int;
        trained_positions(pv, l, lines, j - 1, key).union(
            Set::new(
                |pos: usize| lj <= pos < lj + m - 1 && pair_code(single_token(b[pos - lj]), single_token(b[pos - lj + 1])) == key,
            ),
        )
    }
}

/// `key` has a position in `lines`, indexed from position `l` on.
pub open spec fn trained_pair(pv: Map<u128, Set<usize>>, l: int, lines: Seq<String>, key: u128) -> bool {
    exists|p: usize| l <= p && #[trigger] trained_positions(pv, l, lines, lines.len() as int, key).contains(p)
}

/// Two adjacent bytes of `b` form a pair that `rules` holds a rule for.
pub open spec fn rule_pair_in(b: Seq<u8>, rules: Map<u128, usize>) -> bool {
    exists|pos: int|
        0 <= pos < b.len() - 1 && #[trigger] rules.contains_key(
            pair_code(single_token(b[pos]), single_token(b[pos + 1])) as u128,
        )
}

/// A position recorded for `key` in `t` still holds the pair `key` names.
pub open spec fn good_key(t: Tokenizer, key: u128) -> bool {
    exists|p: usize| #[trigger] positions_of(pairs_view(t.pairs@), key).contains(p) && stands(t, p as int, key)
}

/// With no position dead, every position counts as live.
proof fn lemma_live_count_all(dead: Seq<bool>)
    requires
        forall|k: int| 0 <= k < dead.len() ==> !#[trigger] dead[k],
    ensures
        live_count(dead) == dead.len(),
    decreases dead.len(),
{
    if dead.len() > 0 {
        lemma_live_count_all(dead.drop_last());
    }
}

/// The code of a pair of tokens fits in 128 bits.
proof fn lemma_pair_code_bound(a: Token, b: Token)
    ensures
        0 <= pair_code(a, b) < 0x1_0000_0000_0000_0000_0000_0000_0000_0000,
{
    lemma_token_code_bound(a);
    lemma_token_code_bound(b);
}

impl Tokenizer {
    /// Positions are linked forward to later positions, with only dead
    /// positions in between; backward links stay in range.
    pub open spec fn links_ok(&self) -> bool {
        let n = self.sequence@.len();
        &&& self.prev@.len() == n
        &&& self.next@.len() == n
        &&& self.dead@.len() == n
        &&& forall|p: int|
            0 <= p < n && #[trigger] self.next@[p] is Some ==> {
                let q = self.next@[p]->0 as int;
                &&& p < q < n
                &&& forall|m: int| p < m < q ==> #[trigger] self.dead@[m]
            }
        &&& forall|q: int| 0 <= q < n && #[trigger] self.prev@[q] is Some ==> self.prev@[q]->0 < n
    }

    /// Freshly appended positions: each links forward to the position right
    /// after it; backward links stay in range.
    pub open spec fn links_ok_shape(&self) -> bool {
        let n = self.sequence@.len();
        &&& self.prev@.len() == n
        &&& self.next@.len() == n
        &&& forall|p: int| 0 <= p < n && #[trigger] self.next@[p] is Some ==> self.next@[p] == Some((p + 1) as usize) && p + 1 < n
        &&& forall|q: int| 0 <= q < n && #[trigger] self.prev@[q] is Some ==> self.prev@[q]->0 < n
    }

    /// A live position links forward only to a live position.
    pub open spec fn live_links(&self) -> bool {
        forall|p: int|
            0 <= p < self.sequence@.len() && !self.dead@[p] && #[trigger] self.next@[p] is Some
                ==> !self.dead@[self.next@[p]->0 as int]
    }

    /// Every recorded position is a position of the sequence.
    pub open spec fn positions_ok(&self) -> bool {
        forall|key: u128, pos: usize|
            #[trigger] pairs_view(self.pairs@).contains_key(key) && #[trigger] pairs_view(
                self.pairs@,
            )[key].contains(pos) ==> pos < self.sequence@.len()
    }

    /// Rule ranks never exceed the number of rules.
    pub open spec fn rules_ok(&self) -> bool {
        forall|key: u128| #[trigger] self.rules@.contains_key(key) ==> self.rules@[key] <= self.rules@.len()
    }

    /// Every id the encoder hands out names a vocabulary entry.
    pub open spec fn encoder_ok(&self) -> bool {
        forall|c: u64| #[trigger] self.encoder@.contains_key(c) ==> self.encoder@[c] < self.vocab@.len()
    }

    /// The invariant of a tokenizer between operations.
    pub open spec fn wf(&self) -> bool {
        &&& self.links_ok()
        &&& self.live_links()
        &&& self.positions_ok()
        &&& self.rules_ok()
    }

    /// A tokenizer with no rules, no vocabulary and empty scratch state.
    pub fn new() -> (t: Self)
        ensures
            t.wf(),
            t.rules@.is_empty(),
            t.encoder@.is_empty(),
            t.vocab@.len() == 0,
            t.sequence@.len() == 0,
            t.pairs@.is_empty(),
            t.heap@.len() == 0,
            t.bos == 0,
    {
        let sequence = Vec::new();
        let prev = Vec::new();
        let next = Vec::new();
        let dead = Vec::new();
        let vocab = Vec::new();
        let encoder = HashMap::new();
        let pairs = HashMap::new();
        let rules = HashMap::new();
        let heap = Vec::new();
        Self { sequence, prev, next, dead, vocab, encoder, pairs, rules, heap, bos: 0 }
    }

    /// Records `pos` for pair `key`.
    fn record_position(&mut self, key: u128, pos: usize)
        ensures
            pairs_view(final(self).pairs@) == record(pairs_view(old(self).pairs@), key, pos),
            final(self).rules == old(self).rules,
            final(self).encoder == old(self).encoder,
            final(self).vocab == old(self).vocab,
            final(self).sequence == old(self).sequence,
            final(self).prev == old(self).prev,
            final(self).next == old(self).next,
            final(self).dead == old(self).dead,
            final(self).heap == old(self).heap,
            final(self).bos == old(self).bos,
    {
        let mut set = match self.pairs.remove(&key) {
            Some(set) => set,
            None => HashSet::new(),
        };
        set.insert(pos);
        self.pairs.insert(key, set);
        proof {
            assert(pairs_view(self.pairs@) =~= record(pairs_view(old(self).pairs@), key, pos));
        }
    }

    /// Moves a recorded position from pair `from_key` (position `old_pos`)
    /// to pair `to_key` (position `new_pos`) and offers `to_key` as a
    /// candidate: when training, with the number of its positions as
    /// priority; otherwise, if it has a rule, with the rank counted from the
    /// last rule.
    fn rekey_position(&mut self, from_key: u128, to_key: u128, old_pos: usize, new_pos: usize, train: bool)
        requires
            old(self).rules_ok(),
        ensures
            pairs_view(final(self).pairs@) == record(
                unrecord(pairs_view(old(self).pairs@), from_key, old_pos),
                to_key,
                new_pos,
            ),
            train ==> final(self).heap@ == old(self).heap@.push(
                (positions_of(pairs_view(final(self).pairs@), to_key).len() as usize, to_key),
            ),
            !train && old(self).rules@.contains_key(to_key) ==> final(self).heap@ == old(self).heap@.push(
                ((old(self).rules@.len() - old(self).rules@[to_key]) as usize, to_key),
            ),
            !train && !old(self).rules@.contains_key(to_key) ==> final(self).heap@ == old(self).heap@,
            !train && heap_ruled(old(self).heap@, old(self).rules@) ==> heap_ruled(final(self).heap@, final(self).rules@),
            !train && heap_ranked(old(self).heap@, old(self).rules@) ==> heap_ranked(final(self).heap@, final(self).rules@),
            final(self).rules == old(self).rules,
            final(self).encoder == old(self).encoder,
            final(self).vocab == old(self).vocab,
            final(self).sequence == old(self).sequence,
            final(self).prev == old(self).prev,
            final(self).next == old(self).next,
            final(self).dead == old(self).dead,
            final(self).bos == old(self).bos,
    {
        if let Some(mut positions) = self.pairs.remove(&from_key) {
            positions.remove(&old_pos);
            self.pairs.insert(from_key, positions);
        }
        proof {
            assert(pairs_view(self.pairs@) =~= unrecord(pairs_view(old(self).pairs@), from_key, old_pos));
        }
        self.record_position(to_key, new_pos);
        if train {
            let freq = match self.pairs.get(&to_key) {
                Some(positions) => positions.len(),
                None => 0,
            };
            proof {
                assert(pairs_view(self.pairs@).contains_key(to_key));
                assert(freq == positions_of(pairs_view(self.pairs@), to_key).len());
            }
            self.heap.push((freq, to_key));
        } else {
            if let Some(rank) = self.rules.get(&to_key) {
                let rank = *rank;
                let count = self.rules.len();
                let ghost before = self.heap@;
                self.heap.push((count - rank, to_key));
                proof {
                    if heap_ranked(old(self).heap@, old(self).rules@) {
                        assert forall|i: int| 0 <= i < self.heap@.len() implies self.rules@.contains_key(#[trigger] self.heap@[i].1)
                            && self.heap@[i].0 == (self.rules@.len() - self.rules@[self.heap@[i].1]) as usize by {
                            if i < before.len() {
                                assert(self.heap@[i] == before[i]);
                            }
                        }
                    }
                    if heap_ruled(old(self).heap@, old(self).rules@) {
                        assert forall|i: int| 0 <= i < self.heap@.len() implies self.rules@.contains_key(#[trigger] self.heap@[i].1) by {
                            if i < before.len() {
                                assert(self.heap@[i] == before[i]);
                            }
                        }
                    }
                }
            }
        }
    }

    /// Merges the live position `start` with the next live position `end`:
    /// the merged token takes `start`, `end` dies, and the pairs around them
    /// are recorded under their new keys.
    fn merge_step(&mut self, start: usize, end: usize, train: bool)
        requires
            old(self).wf(),
            start < old(self).sequence@.len(),
            !old(self).dead@[start as int],
            old(self).next@[start as int] == Some(end),
        ensures
            final(self).wf(),
            final(self).sequence@ == old(self).sequence@.update(
                start as int,
                token_concat(old(self).sequence@[start as int], old(self).sequence@[end as int]),
            ),
            final(self).dead@ == old(self).dead@.update(end as int, true),
            final(self).next@ == old(self).next@.update(start as int, old(self).next@[end as int]),
            all_packed(old(self).sequence@) ==> all_packed(final(self).sequence@),
            all_packed(old(self).sequence@) && spelling(old(self).sequence@[start as int].bytes@).len() + spelling(
                old(self).sequence@[end as int].bytes@,
            ).len() <= N_CHARS ==> live_text(final(self).sequence@, final(self).dead@, final(self).sequence@.len() as int)
                == live_text(old(self).sequence@, old(self).dead@, old(self).sequence@.len() as int),
            !train && heap_ruled(old(self).heap@, old(self).rules@) ==> heap_ruled(final(self).heap@, final(self).rules@),
            !train && heap_ranked(old(self).heap@, old(self).rules@) ==> heap_ranked(final(self).heap@, final(self).rules@),
            live_count(final(self).dead@) + 1 == live_count(old(self).dead@),
            final(self).rules == old(self).rules,
            final(self).encoder == old(self).encoder,
            final(self).vocab == old(self).vocab,
            final(self).bos == old(self).bos,
            forall|key: u128|
                #[trigger] pairs_view(final(self).pairs@).contains_key(key) ==> pairs_view(old(self).pairs@).contains_key(key)
                    || (old(self).prev@[start as int] matches Some(l) && key as int == pair_code(
                    old(self).sequence@[l as int],
                    token_concat(old(self).sequence@[start as int], old(self).sequence@[end as int]),
                )) || (old(self).next@[end as int] matches Some(q) && key as int == pair_code(
                    token_concat(old(self).sequence@[start as int], old(self).sequence@[end as int]),
                    old(self).sequence@[q as int],
                )),
            final(self).prev@ == (if old(self).next@[end as int] is Some {
                old(self).prev@.update(old(self).next@[end as int]->0 as int, Some(start))
            } else {
                old(self).prev@
            }),
            forall|key: u128, pos: usize|
                #[trigger] positions_of(pairs_view(old(self).pairs@), key).contains(pos) && old(self).prev@[start as int]
                    != Some(pos) && pos != end ==> positions_of(pairs_view(final(self).pairs@), key).contains(pos),
            old(self).prev@[start as int] matches Some(l) ==> (l != end ==> positions_of(
                pairs_view(final(self).pairs@),
                pair_code(
                    old(self).sequence@[l as int],
                    token_concat(old(self).sequence@[start as int], old(self).sequence@[end as int]),
                ) as u128,
            ).contains(l)),
            old(self).next@[end as int] matches Some(q) ==> positions_of(
                pairs_view(final(self).pairs@),
                pair_code(
                    token_concat(old(self).sequence@[start as int], old(self).sequence@[end as int]),
                    old(self).sequence@[q as int],
                ) as u128,
            ).contains(start),
            old(self).heap@.len() <= final(self).heap@.len(),
            final(self).heap@.subrange(0, old(self).heap@.len() as int) == old(self).heap@,
            !train && old(self).prev@[start as int] is Some && old(self).rules@.contains_key(
                pair_code(
                    old(self).sequence@[old(self).prev@[start as int]->0 as int],
                    token_concat(old(self).sequence@[start as int], old(self).sequence@[end as int]),
                ) as u128,
            ) ==> exists|i: int|
                0 <= i < final(self).heap@.len() && #[trigger] final(self).heap@[i].1 == pair_code(
                    old(self).sequence@[old(self).prev@[start as int]->0 as int],
                    token_concat(old(self).sequence@[start as int], old(self).sequence@[end as int]),
                ) as u128,
            !train && old(self).next@[end as int] is Some && old(self).rules@.contains_key(
                pair_code(
                    token_concat(old(self).sequence@[start as int], old(self).sequence@[end as int]),
                    old(self).sequence@[old(self).next@[end as int]->0 as int],
                ) as u128,
            ) ==> exists|i: int|
                0 <= i < final(self).heap@.len() && #[trigger] final(self).heap@[i].1 == pair_code(
                    token_concat(old(self).sequence@[start as int], old(self).sequence@[end as int]),
                    old(self).sequence@[old(self).next@[end as int]->0 as int],
                ) as u128,
    {
        let ghost n = self.sequence@.len() as int;
        let ghost pv0 = pairs_view(self.pairs@);
        let ghost mg = token_concat(self.sequence@[start as int], self.sequence@[end as int]);

        let ghost d0 = self.dead@;
        let ghost nx0 = self.next@;
        proof {
            assert(nx0[start as int] is Some);
            assert(!d0[end as int]);
        }
        let merged = self.sequence[start] + self.sequence[end];
        proof {
            assert(merged == mg);
        }
        let ghost mut k1: u128 = 0;
        let ghost mut i1: int = 0;
        let ghost mut k2: u128 = 0;
        let ghost mut i2: int = 0;
        let ghost mut pv_mid = pairs_view(self.pairs@);
        if let Some(left) = self.prev[start] {
            let from_key = pair_key(&self.sequence[left], &self.sequence[start]);
            let to_key = pair_key(&self.sequence[left], &merged);
            let ghost pv1 = pairs_view(self.pairs@);
            let ghost h1 = self.heap@;
            self.rekey_position(from_key, to_key, left, left, train);
            proof {
                assert forall|key: u128, pos: usize|
                    #[trigger] positions_of(pv1, key).contains(pos) && pos != left implies positions_of(
                        pairs_view(self.pairs@),
                        key,
                    ).contains(pos) by {
                    assert(positions_of(unrecord(pv1, from_key, left), key).contains(pos));
                }
                assert(positions_of(pairs_view(self.pairs@), to_key).contains(left));
                assert(self.heap@.subrange(0, h1.len() as int) =~= h1);
                if !train && self.rules@.contains_key(to_key) {
                    assert(self.heap@[h1.len() as int].1 == to_key);
                }
                k1 = to_key;
                i1 = h1.len() as int;
                assert forall|key: u128| #[trigger] pairs_view(self.pairs@).contains_key(key) implies pv0.contains_key(key)
                    || (old(self).prev@[start as int] matches Some(l) && key as int == pair_code(old(self).sequence@[l as int], mg))
                    || (old(self).next@[end as int] matches Some(q) && key as int == pair_code(mg, old(self).sequence@[q as int])) by {
                    if key != to_key {
                        assert(unrecord(pv1, from_key, left).contains_key(key));
                        assert(pv1.contains_key(key));
                    }
                }
            }
        }
        let ghost h_mid = self.heap@;
        proof {
            pv_mid = pairs_view(self.pairs@);
        }
        let right = self.next[end];
        proof {
            assert(self.next@[end as int] == right);
            if right is Some {
                assert(nx0[end as int] is Some);
            }
        }
        self.next.set(start, right);
        self.dead.set(end, true);
        if let Some(right) = right {
            self.prev.set(right, Some(start));
            let from_key = pair_key(&self.sequence[end], &self.sequence[right]);
            let to_key = pair_key(&merged, &self.sequence[right]);
            let ghost pv2 = pairs_view(self.pairs@);
            let ghost h2 = self.heap@;
            self.rekey_position(from_key, to_key, end, start, train);
            proof {
                assert forall|key: u128, pos: usize|
                    #[trigger] positions_of(pv2, key).contains(pos) && pos != end implies positions_of(
                        pairs_view(self.pairs@),
                        key,
                    ).contains(pos) by {
                    assert(positions_of(unrecord(pv2, from_key, end), key).contains(pos));
                }
                assert(positions_of(pairs_view(self.pairs@), to_key).contains(start));
                assert(self.heap@.subrange(0, h2.len() as int) =~= h2);
                if !train && self.rules@.contains_key(to_key) {
                    assert(self.heap@[h2.len() as int].1 == to_key);
                }
                k2 = to_key;
                i2 = h2.len() as int;
                assert forall|key: u128| #[trigger] pairs_view(self.pairs@).contains_key(key) implies pv0.contains_key(key)
                    || (old(self).prev@[start as int] matches Some(l) && key as int == pair_code(old(self).sequence@[l as int], mg))
                    || (old(self).next@[end as int] matches Some(q) && key as int == pair_code(mg, old(self).sequence@[q as int])) by {
                    if key != to_key {
                        assert(unrecord(pv2, from_key, end).contains_key(key));
                        assert(pv2.contains_key(key));
                    }
                }
            }
        }
        self.sequence.set(start, merged);
        proof {
            if let Some(l) = old(self).prev@[start as int] {
                assert(k1 as int == pair_code(old(self).sequence@[l as int], mg));
                assert(positions_of(pv_mid, k1).contains(l));
                if l != end {
                    assert(positions_of(pairs_view(self.pairs@), k1).contains(l));
                }
                if !train && old(self).rules@.contains_key(k1) {
                    assert(h_mid[i1].1 == k1);
                    assert(self.heap@.subrange(0, h_mid.len() as int)[i1] == self.heap@[i1]);
                    assert(self.heap@[i1].1 == k1);
                }
            }
            if let Some(q) = old(self).next@[end as int] {
                assert(k2 as int == pair_code(mg, old(self).sequence@[q as int]));
                if !train && old(self).rules@.contains_key(k2) {
                    assert(self.heap@[i2].1 == k2);
                }
            }
            let s0 = old(self).sequence@;
            assert(self.sequence@ =~= s0.update(start as int, merged));
            if all_packed(s0) {
                lemma_add_spelling(s0[start as int], s0[end as int]);
                assert forall|p: int| 0 <= p < n implies packed_token(#[trigger] self.sequence@[p]) by {
                    if p != start as int {
                        assert(self.sequence@[p] == s0[p]);
                    }
                }
                if spelling(s0[start as int].bytes@).len() + spelling(s0[end as int].bytes@).len() <= N_CHARS {
                    lemma_live_text_merge(s0, d0, start as int, end as int, merged, n);
                }
            }
            lemma_live_count_kill(d0, end as int);
            let nx = self.next@;
            let dd = self.dead@;
            assert(dd == d0.update(end as int, true));
            assert(nx == nx0.update(start as int, right));
            assert forall|p: int| 0 <= p < n && #[trigger] nx[p] is Some implies {
                let q = nx[p]->0 as int;
                &&& p < q < n
                &&& forall|m: int| p < m < q ==> #[trigger] dd[m]
            } by {
                if p == start as int {
                    let q = nx[p]->0 as int;
                    assert forall|m: int| p < m < q implies #[trigger] dd[m] by {
                        if m < end as int {
                            assert(d0[m]);
                        } else if m > end as int {
                            assert(nx0[end as int] is Some);
                            assert(d0[m]);
                        }
                    }
                } else {
                    assert(nx0[p] is Some);
                    let q = nx[p]->0 as int;
                    assert forall|m: int| p < m < q implies #[trigger] dd[m] by {
                        assert(d0[m]);
                    }
                }
            }
            assert forall|p: int|
                0 <= p < n && !dd[p] && #[trigger] nx[p] is Some implies !dd[nx[p]->0 as int] by {
                if p == start as int {
                    assert(nx0[end as int] is Some);
                } else {
                    assert(nx0[p] is Some);
                    let q = nx0[p]->0 as int;
                    assert(!d0[p]);
                    assert(!d0[q]);
                    if q == end as int {
                        if p < start as int {
                            assert(d0[start as int]);
                        } else {
                            assert(d0[p]);
                        }
                    }
                }
            }
            assert(self.links_ok());
            assert(self.live_links());
        }
    }

    /// Merges, at each position recorded for pair `pair` where that pair
    /// still stands, the two tokens into one; the first merge adds `pair` as
    /// the next rule when training. The positions are visited in the order
    /// the set hands them out.
    fn merge_pair(&mut self, pair: u128, train: bool)
        requires
            old(self).wf(),
        ensures
            final(self).wf(),
            final(self).sequence@.len() == old(self).sequence@.len(),
            final(self).encoder == old(self).encoder,
            final(self).vocab == old(self).vocab,
            final(self).bos == old(self).bos,
            live_count(final(self).dead@) <= live_count(old(self).dead@),
            live_count(final(self).dead@) == live_count(old(self).dead@) ==> {
                &&& pairs_view(final(self).pairs@) == pairs_view(old(self).pairs@).remove(pair)
                &&& final(self).heap == old(self).heap
                &&& final(self).rules == old(self).rules
                &&& final(self).sequence == old(self).sequence
                &&& final(self).prev == old(self).prev
                &&& final(self).next == old(self).next
                &&& final(self).dead == old(self).dead
            },
            !train ==> final(self).rules == old(self).rules,
            train && live_count(final(self).dead@) < live_count(old(self).dead@) ==> final(self).rules@
                == old(self).rules@.insert(pair, old(self).rules@.len() as usize),
            all_packed(old(self).sequence@) ==> all_packed(final(self).sequence@),
            all_packed(old(self).sequence@) && pair_fits(pair)
                ==> live_text(final(self).sequence@, final(self).dead@, final(self).sequence@.len() as int) == live_text(
                old(self).sequence@,
                old(self).dead@,
                old(self).sequence@.len() as int,
            ),
            !train && heap_ruled(old(self).heap@, old(self).rules@) ==> heap_ruled(final(self).heap@, final(self).rules@),
            (exists|p: usize|
                pairs_view(old(self).pairs@).contains_key(pair) && #[trigger] pairs_view(old(self).pairs@)[pair].contains(p)
                    && stands(*old(self), p as int, pair)) ==> live_count(final(self).dead@) < live_count(old(self).dead@),
            !good_key(*old(self), pair) ==> live_count(final(self).dead@) == live_count(old(self).dead@),
            forall|p: int| 0 <= p < old(self).dead@.len() && #[trigger] old(self).dead@[p] ==> final(self).dead@[p],
            !train && all_packed(old(self).sequence@) && all_spelled(old(self).sequence@) && pair_fits(pair) ==> !pairs_view(final(self).pairs@).contains_key(pair) && all_spelled(
                final(self).sequence@,
            ),
            !train && all_packed(old(self).sequence@) && all_spelled(old(self).sequence@) && pair_fits(pair) ==> forall|p: usize|
                #[trigger] positions_of(pairs_view(old(self).pairs@), pair).contains(p) ==> !stands(*final(self), p as int, pair),
            back_linked(*old(self)) ==> back_linked(*final(self)),
            !train && heap_ranked(old(self).heap@, old(self).rules@) ==> heap_ranked(final(self).heap@, final(self).rules@),
            !train && old(self).rules@.contains_key(pair) && all_built(*old(self), old(self).rules@) ==> all_built(
                *final(self),
                old(self).rules@,
            ),
            merge_ready(*old(self), pair, train) && back_linked(*old(self)) && indexed_but(*old(self), None) ==> indexed_but(
                *final(self),
                None,
            ) && forall|p: int| !stands(*final(self), p, pair),
            merge_ready(*old(self), pair, train) && back_linked(*old(self)) && indexed_but(*old(self), None)
                && heap_covers_but(*old(self), Some(pair)) ==> heap_covers_but(*final(self), None),
    {
        let ghost live0 = live_count(self.dead@);
        let ghost n = self.sequence@.len();
        let total = self.sequence.len();
        let ghost ready = merge_ready(*old(self), pair, train) && back_linked(*old(self)) && indexed_but(*old(self), None);
        let ghost covered = ready && heap_covers_but(*old(self), Some(pair));
        proof {
            assert(n == total);
            if ready {
                assert forall|p: int| 0 <= p < n && #[trigger] stands(*old(self), p, pair) implies positions_of(
                    pairs_view(old(self).pairs@),
                    pair,
                ).contains(p as usize) by {
                    lemma_pair_code_bound(old(self).sequence@[p], old(self).sequence@[old(self).next@[p]->0 as int]);
                    assert(key_at(*old(self), p) == pair);
                }
            }
        }
        let ghost rules0 = self.rules@;
        let mut rule_added = !train;
        let removed = self.pairs.remove(&pair);
        let ghost pvr = pairs_view(self.pairs@);
        proof {
            assert(pvr =~= pairs_view(old(self).pairs@).remove(pair));
            assert(self.wf());
            if ready {
                assert forall|p: int|
                    0 <= p < self.sequence@.len() && !self.dead@[p] && #[trigger] self.next@[p] is Some && Some(pair) != Some(
                        key_at(*self, p),
                    ) implies positions_of(pairs_view(self.pairs@), key_at(*self, p)).contains(p as usize) by {
                    assert(positions_of(pairs_view(old(self).pairs@), key_at(*self, p)).contains(p as usize));
                }
            }
        }
        if let Some(positions) = removed {
            proof {
                assert(pairs_view(old(self).pairs@).contains_key(pair));
                assert(positions@ == pairs_view(old(self).pairs@)[pair]);
            }
            let ghost all = vstd::std_specs::hash::spec_hash_keys_iter(&positions).remaining();
            let ghost mut seen: Seq<usize> = Seq::empty();
            for start in it: positions.iter()
                invariant
                    it.seq() == all,
                    all.unref().to_set() == positions@,
                    seen.len() == it.index(),
                    forall|k: int| 0 <= k < seen.len() ==> seen[k] == *all[k],
                    live_count(self.dead@) == live0 ==> forall|k: int|
                        0 <= k < seen.len() ==> !stands(*old(self), #[trigger] seen[k] as int, pair),
                    self.wf(),
                    forall|p: usize| positions@.contains(p) ==> p < n,
                    self.sequence@.len() == n,
                    self.encoder == old(self).encoder,
                    self.vocab == old(self).vocab,
                    self.bos == old(self).bos,
                    rules0 == old(self).rules@,
                    live0 == live_count(old(self).dead@),
                    pvr == pairs_view(old(self).pairs@).remove(pair),
                    live_count(self.dead@) <= live0,
                    !good_key(*old(self), pair) ==> live_count(self.dead@) == live0,
                    pairs_view(old(self).pairs@).contains_key(pair),
                    positions@ == pairs_view(old(self).pairs@)[pair],
                    old(self).dead@.len() == n,
                    self.dead@.len() == n,
                    forall|p: int| 0 <= p < n && #[trigger] old(self).dead@[p] ==> self.dead@[p],
                    live_count(self.dead@) == live0 ==> {
                        &&& pairs_view(self.pairs@) == pvr
                        &&& self.heap == old(self).heap
                        &&& self.sequence == old(self).sequence
                        &&& self.prev == old(self).prev
                        &&& self.next == old(self).next
                        &&& self.dead == old(self).dead
                    },
                    !train ==> rule_added && self.rules == old(self).rules,
                    train && !rule_added ==> self.rules == old(self).rules && live_count(self.dead@) == live0,
                    train && rule_added ==> self.rules@ == rules0.insert(pair, rules0.len() as usize)
                        && live_count(self.dead@) < live0,
                    all_packed(old(self).sequence@) ==> all_packed(self.sequence@),
                    all_packed(old(self).sequence@) && pair_fits(pair)
                        ==> live_text(self.sequence@, self.dead@, n as int) == live_text(
                        old(self).sequence@,
                        old(self).dead@,
                        n as int,
                    ),
                    !train && heap_ruled(old(self).heap@, old(self).rules@) ==> heap_ruled(self.heap@, self.rules@),
                    !train && all_packed(old(self).sequence@) && all_spelled(old(self).sequence@) && pair_fits(pair) ==> !pairs_view(self.pairs@).contains_key(pair) && all_spelled(
                        self.sequence@,
                    ),
                    !train && all_packed(old(self).sequence@) && all_spelled(old(self).sequence@) && pair_fits(pair) ==> forall|k: int|
                        0 <= k < seen.len() ==> !stands(*self, #[trigger] seen[k] as int, pair),
                    n == total,
                    ready == (merge_ready(*old(self), pair, train) && back_linked(*old(self)) && indexed_but(*old(self), None)),
                    covered == (ready && heap_covers_but(*old(self), Some(pair))),
                    back_linked(*old(self)) ==> back_linked(*self),
                    !train && heap_ranked(old(self).heap@, old(self).rules@) ==> heap_ranked(self.heap@, self.rules@),
                    !train && old(self).rules@.contains_key(pair) && all_built(*old(self), old(self).rules@) ==> all_built(
                        *self,
                        old(self).rules@,
                    ),
                    ready ==> indexed_but(*self, Some(pair)),
                    ready ==> forall|p: int| 0 <= p < n && #[trigger] stands(*self, p, pair) ==> positions@.contains(p as usize),
                    covered ==> heap_covers_but(*self, Some(pair)),
            {
                let start = *start;
                proof {
                    assert(positions@.contains(start));
                }
                let ghost live_before = live_count(self.dead@);
                let ghost standing = stands(*self, start as int, pair);
                if self.dead[start] {
                } else if let Some(end) = self.next[start] {
                    // The tokens may have changed since the position was recorded.
                    let cur = pair_key(&self.sequence[start], &self.sequence[end]);
                    if cur == pair {
                    if !rule_added {
                        let rank = self.rules.len();
                        self.rules.insert(pair, rank);
                        rule_added = true;
                        proof {
                            assert forall|key: u128| #[trigger] self.rules@.contains_key(key) implies self.rules@[key]
                                <= self.rules@.len() by {
                                if key != pair {
                                    assert(rules0.contains_key(key));
                                }
                            }
                        }
                    }
                    proof {
                        if all_packed(old(self).sequence@) && pair_fits(pair) {
                            assert(pair_code(self.sequence@[start as int], self.sequence@[end as int]) == pair as int);
                        }
                        assert(standing);
                        if live_before == live0 {
                            assert(stands(*old(self), start as int, pair));
                            assert(positions_of(pairs_view(old(self).pairs@), pair).contains(start));
                            assert(good_key(*old(self), pair));
                        }
                    }
                    let ghost dead_before = self.dead@;
                    let ghost sb = *self;
                    proof {
                        assert(sb.sequence@.len() <= usize::MAX);
                    }
                    proof {
                        if !train && all_packed(old(self).sequence@) && all_spelled(old(self).sequence@) && pair_fits(pair) {
                            let a = sb.sequence@[start as int];
                            let b = sb.sequence@[end as int];
                            assert(pair_code(a, b) == pair as int);
                            assert(packed_token(a) && packed_token(b));
                            if let Some(l) = sb.prev@[start as int] {
                                lemma_merged_pair_is_new(a, b, sb.sequence@[l as int]);
                            }
                            if let Some(q) = sb.next@[end as int] {
                                lemma_merged_pair_is_new(a, b, sb.sequence@[q as int]);
                            }
                            lemma_merged_pair_is_new(a, b, a);
                        }
                    }
                    self.merge_step(start, end, train);
                    proof {
                        if !train && old(self).rules@.contains_key(pair) && all_built(sb, old(self).rules@) {
                            assert(pair_code(sb.sequence@[start as int], sb.sequence@[end as int]) == pair as int);
                            lemma_pair_code_bound(sb.sequence@[start as int], sb.sequence@[end as int]);
                            lemma_merge_keeps_built(sb, *self, start as int, end as int, old(self).rules@);
                        }
                        if back_linked(sb) {
                            lemma_merge_keeps_index(sb, *self, start as int, end as int, pair, train);
                        }
                        if !train && all_packed(old(self).sequence@) && all_spelled(old(self).sequence@) && pair_fits(pair) {
                            let a = sb.sequence@[start as int];
                            let b = sb.sequence@[end as int];
                            assert(pair_code(a, b) == pair as int);
                            assert forall|k: int| 0 <= k < seen.len() implies !stands(*self, #[trigger] seen[k] as int, pair) by {
                                lemma_merge_keeps_unstanding(sb, *self, start as int, end as int, seen[k] as int, pair);
                            }
                            lemma_merge_keeps_unstanding(sb, *self, start as int, end as int, start as int, pair);
                            if ready {
                                assert forall|p: int| 0 <= p < n && #[trigger] stands(*self, p, pair) implies positions@.contains(p as usize) by {
                                    if p == start as int || !stands(sb, p, pair) {
                                        lemma_merge_keeps_unstanding(sb, *self, start as int, end as int, p, pair);
                                    }
                                }
                            }
                            assert(!pairs_view(self.pairs@).contains_key(pair));
                            assert forall|p: int| 0 <= p < self.sequence@.len() implies spelling(#[trigger] self.sequence@[p].bytes@).len() >= 1 by {
                                if p != start as int {
                                    assert(self.sequence@[p] == sb.sequence@[p]);
                                }
                            }
                        }
                    }
                    proof {
                        assert forall|p: int| 0 <= p < n && #[trigger] old(self).dead@[p] implies self.dead@[p] by {
                            assert(dead_before[p]);
                        }
                    }
                    }
                }
                proof {
                    if live_count(self.dead@) == live0 {
                        assert(!standing);
                    }
                    if !train && all_packed(old(self).sequence@) && all_spelled(old(self).sequence@) && pair_fits(pair) {
                        assert(!stands(*self, start as int, pair));
                    }
                    seen = seen.push(start);
                }
            }
            proof {
                if ready {
                    assert forall|p: int| !stands(*self, p, pair) by {
                        if stands(*self, p, pair) {
                            assert(positions@.contains(p as usize));
                            assert(all.unref().to_set().contains(p as usize));
                            let k = choose|k: int| 0 <= k < all.unref().len() && all.unref()[k] == p as usize;
                            assert(seen[k] == p as usize);
                        }
                    }
                    assert forall|p: int|
                        0 <= p < self.sequence@.len() && !self.dead@[p] && #[trigger] self.next@[p] is Some implies positions_of(
                            pairs_view(self.pairs@),
                            key_at(*self, p),
                        ).contains(p as usize) by {
                        lemma_pair_code_bound(self.sequence@[p], self.sequence@[self.next@[p]->0 as int]);
                        if key_at(*self, p) == pair {
                            assert(stands(*self, p, pair));
                        }
                    }
                    if covered {
                        assert forall|p: int|
                            0 <= p < self.sequence@.len() && !self.dead@[p] && #[trigger] self.next@[p] is Some && None::<u128>
                                != Some(key_at(*self, p)) && self.rules@.contains_key(key_at(*self, p)) implies heap_has(
                                self.heap@,
                                key_at(*self, p),
                            ) by {
                            lemma_pair_code_bound(self.sequence@[p], self.sequence@[self.next@[p]->0 as int]);
                            if key_at(*self, p) == pair {
                                assert(stands(*self, p, pair));
                            }
                        }
                    }
                }
                if !train && all_packed(old(self).sequence@) && all_spelled(old(self).sequence@) && pair_fits(pair) {
                    assert forall|p: usize|
                        #[trigger] positions_of(pairs_view(old(self).pairs@), pair).contains(p) implies !stands(*self, p as int, pair) by {
                        assert(positions@.contains(p));
                        assert(all.unref().to_set().contains(p));
                        let k = choose|k: int| 0 <= k < all.unref().len() && all.unref()[k] == p;
                        assert(seen[k] == p);
                    }
                }
                if live_count(self.dead@) == live0 {
                    assert forall|p: usize| #[trigger] positions@.contains(p) implies !stands(*old(self), p as int, pair) by {
                        assert(all.unref().to_set().contains(p));
                        let k = choose|k: int| 0 <= k < all.unref().len() && all.unref()[k] == p;
                        assert(seen[k] == p);
                    }
                }
            }
        } else {
            proof {
                assert(pvr =~= pairs_view(old(self).pairs@));
                assert(self.pairs@ == old(self).pairs@);
                if ready {
                    assert forall|p: int| !stands(*self, p, pair) by {
                        if stands(*self, p, pair) {
                            assert(positions_of(pairs_view(old(self).pairs@), pair).contains(p as usize));
                        }
                    }
                    assert forall|p: int|
                        0 <= p < self.sequence@.len() && !self.dead@[p] && #[trigger] self.next@[p] is Some && self.rules@.contains_key(
                            key_at(*self, p),
                        ) && covered implies heap_has(self.heap@, key_at(*self, p)) by {
                        lemma_pair_code_bound(self.sequence@[p], self.sequence@[self.next@[p]->0 as int]);
                        if key_at(*self, p) == pair {
                            assert(stands(*self, p, pair));
                        }
                    }
                }
            }
        }
    }

    /// Empties the sequence being merged and its indexes.
    fn reset_scratch(&mut self)
        ensures
            final(self).sequence@.len() == 0,
            final(self).prev@.len() == 0,
            final(self).next@.len() == 0,
            final(self).pairs@.is_empty(),
            final(self).heap@.len() == 0,
            final(self).dead == old(self).dead,
            final(self).rules == old(self).rules,
            final(self).encoder == old(self).encoder,
            final(self).vocab == old(self).vocab,
            final(self).bos == old(self).bos,
    {
        self.sequence.clear();
        self.prev.clear();
        self.next.clear();
        self.pairs.clear();
        self.heap.clear();
    }

    /// Marks every position live.
    fn revive_all(&mut self)
        ensures
            final(self).dead@.len() == old(self).dead@.len(),
            forall|k: int| 0 <= k < final(self).dead@.len() ==> !final(self).dead@[k],
            final(self).sequence == old(self).sequence,
            final(self).prev == old(self).prev,
            final(self).next == old(self).next,
            final(self).pairs == old(self).pairs,
            final(self).heap == old(self).heap,
            final(self).rules == old(self).rules,
            final(self).encoder == old(self).encoder,
            final(self).vocab == old(self).vocab,
            final(self).bos == old(self).bos,
    {
        let mut k: usize = 0;
        while k < self.dead.len()
            invariant
                k <= self.dead@.len(),
                self.dead@.len() == old(self).dead@.len(),
                forall|m: int| 0 <= m < k ==> !self.dead@[m],
                self.sequence == old(self).sequence,
                self.prev == old(self).prev,
                self.next == old(self).next,
                self.pairs == old(self).pairs,
                self.heap == old(self).heap,
                self.rules == old(self).rules,
                self.encoder == old(self).encoder,
                self.vocab == old(self).vocab,
                self.bos == old(self).bos,
            decreases self.dead@.len() - k,
        {
            self.dead.set(k, false);
            k += 1;
        }
    }

    /// Encodes `input` into `out`: the bytes become single-byte tokens, the
    /// rules are applied (lowest rank first) until none applies, and `out`
    /// receives the begin marker, the ids of the remaining tokens the encoder
    /// knows, in order, and the marker again.
    #[verifier::rlimit(100)]
    pub fn encode(&mut self, input: &str, out: &mut Vec<usize>)
        requires
            old(self).rules_ok(),
            input.spec_bytes().len() != 1,
            input.spec_bytes().len() < usize::MAX,
        ensures
            final(self).wf(),
            final(self).rules == old(self).rules,
            final(self).encoder == old(self).encoder,
            final(self).vocab == old(self).vocab,
            final(self).bos == old(self).bos,
            final(self).sequence@.len() == input.spec_bytes().len(),
            final(self).heap@.len() == 0,
            all_packed(final(self).sequence@),
            rules_fit(old(self).rules@) ==> live_text(final(self).sequence@, final(self).dead@, final(self).sequence@.len() as int)
                == input.spec_bytes(),
            rules_fit(old(self).rules@) && encoder_spells(old(self).vocab@, old(self).encoder@) && old(self).bos
                >= old(self).vocab@.len() && all_known(
                final(self).sequence@,
                final(self).dead@,
                final(self).encoder@,
                final(self).sequence@.len() as int,
            ) ==> decoded(old(self).vocab@, final(out)@) == input.spec_bytes(),
            rules_fit(old(self).rules@) && encoder_spells(old(self).vocab@, old(self).encoder@) && all_known(
                final(self).sequence@,
                final(self).dead@,
                final(self).encoder@,
                final(self).sequence@.len() as int,
            ) ==> decoded(old(self).vocab@, final(out)@.subrange(1, final(out)@.len() - 1)) == input.spec_bytes(),
            rule_pair_in(input.spec_bytes(), old(self).rules@) ==> live_count(final(self).dead@) < input.spec_bytes().len(),
            rules_fit(old(self).rules@) ==> forall|p: int|
                0 <= p < final(self).sequence@.len() && !final(self).dead@[p] && #[trigger] final(self).next@[p] is Some
                    ==> !old(self).rules@.contains_key(key_at(*final(self), p)),
            final(out)@ == seq![old(self).bos] + live_ids(
                final(self).sequence@,
                final(self).dead@,
                final(self).encoder@,
                final(self).sequence@.len() as int,
            ) + seq![old(self).bos],
            forall|p: int|
                0 <= p < final(self).sequence@.len() && !final(self).dead@[p] ==> built(
                    old(self).rules@,
                    #[trigger] final(self).sequence@[p],
                    input.spec_bytes().len() as nat,
                ),
            rules_fit(old(self).rules@) ==> exists|rounds: Seq<Tokenizer>, keys: Seq<u128>|
                #[trigger] encode_trace(rounds, keys, input.spec_bytes()) && same_tokens(rounds.last(), *final(self)),
    {
        self.reset_scratch();
        let ghost r0 = *self;
        self.add_input(input);
        self.revive_all();
        proof {
            let n = self.sequence@.len() as int;
            assert forall|key: u128, pos: usize|
                #[trigger] pairs_view(self.pairs@).contains_key(key) && #[trigger] pairs_view(
                    self.pairs@,
                )[key].contains(pos) implies pos < n by {
                assert(positions_of(pairs_view(self.pairs@), key).contains(pos));
            }
            assert(self.wf());
            let b = input.spec_bytes();
            assert(self.sequence@ =~= byte_tokens(b));
            lemma_live_text_bytes(b, self.dead@, n);
            assert(b.take(n) =~= b);
            lemma_live_count_all(self.dead@);
            assert forall|pos: int| 0 <= pos < n - 1 implies #[trigger] stands(
                *self,
                pos,
                pair_code(single_token(b[pos]), single_token(b[pos + 1])) as u128,
            ) && positions_of(pairs_view(self.pairs@), pair_code(single_token(b[pos]), single_token(b[pos + 1])) as u128).contains(
                pos as usize,
            ) by {
                lemma_pair_code_bound(single_token(b[pos]), single_token(b[pos + 1]));
                assert(self.next@[pos] == Some((pos + 1) as usize));
                assert(positions_of(pairs_view(r0.pairs@), pair_code(single_token(b[pos]), single_token(b[pos + 1])) as u128)
                    =~= Set::empty()) by {
                    assert(pairs_view(r0.pairs@) =~= Map::empty());
                }
            }
        }
        proof {
            let b = input.spec_bytes();
            let m = b.len() as int;
            assert forall|p: int|
                0 <= p < self.sequence@.len() && !self.dead@[p] && #[trigger] self.next@[p] is Some implies self.prev@[self.next@[p]->0 as int]
                    == Some(p as usize) by {
                assert(self.next@[p] == Some((p + 1) as usize));
            }
            assert forall|q: int|
                0 <= q < self.sequence@.len() && !self.dead@[q] && #[trigger] self.prev@[q] is Some implies {
                    let p = self.prev@[q]->0 as int;
                    &&& 0 <= p < self.sequence@.len()
                    &&& !self.dead@[p]
                    &&& self.next@[p] == Some(q as usize)
                } by {
                assert(q >= 1);
                assert(self.prev@[q] == Some((q - 1) as usize));
                assert(self.next@[q - 1] == Some(q as usize));
            }
            assert(back_linked(*self));
            assert forall|p: int| 0 <= p < self.sequence@.len() implies spelling(#[trigger] self.sequence@[p].bytes@).len() >= 1 by {
                lemma_new_spelling(b[p], self.sequence@[p]);
            }
            assert forall|p: int|
                0 <= p < self.sequence@.len() && !self.dead@[p] && #[trigger] self.next@[p] is Some && None::<u128> != Some(
                    key_at(*self, p),
                ) implies positions_of(pairs_view(self.pairs@), key_at(*self, p)).contains(p as usize) by {
                assert(self.next@[p] == Some((p + 1) as usize));
                assert(p < m - 1);
                assert(stands(*self, p, pair_code(single_token(b[p]), single_token(b[p + 1])) as u128));
                lemma_pair_code_bound(single_token(b[p]), single_token(b[p + 1]));
            }
        }
        let ghost s0 = *self;
        proof {
            let b = input.spec_bytes();
            lemma_live_count_all(s0.dead@);
            assert forall|p: int| 0 <= p < s0.sequence@.len() && !s0.dead@[p] implies built(
                s0.rules@,
                #[trigger] s0.sequence@[p],
                (s0.sequence@.len() - live_count(s0.dead@)) as nat,
            ) by {
                lemma_new_spelling(b[p], s0.sequence@[p]);
            }
            assert(all_built(s0, s0.rules@));
            assert forall|p: int| 0 <= p < b.len() implies #[trigger] s0.next@[p] == (if p + 1 < b.len() {
                Some((p + 1) as usize)
            } else {
                None
            }) by {}
            assert(fresh_text(s0, b));
        }
        let ghost pairs_before = self.pairs@;
        let keys: Vec<u128> = self.pair_keys();
        let count = self.rules.len();
        let mut k: usize = 0;
        while k < keys.len()
            invariant
                self.wf(),
                self.pairs@ == pairs_before,
                count == self.rules@.len(),
                self.rules == old(self).rules,
                self.encoder == old(self).encoder,
                self.vocab == old(self).vocab,
                self.bos == old(self).bos,
                self.sequence@.len() == input.spec_bytes().len(),
                heap_ruled(self.heap@, self.rules@),
                heap_ranked(self.heap@, self.rules@),
                all_packed(self.sequence@),
                live_text(self.sequence@, self.dead@, self.sequence@.len() as int) == input.spec_bytes(),
                self.sequence == s0.sequence,
                self.dead == s0.dead,
                self.next == s0.next,
                self.prev == s0.prev,
                forall|j: int|
                    0 <= j < k && self.rules@.contains_key(#[trigger] keys@[j]) ==> exists|i: int|
                        0 <= i < self.heap@.len() && #[trigger] self.heap@[i].1 == keys@[j],
            decreases keys@.len() - k,
        {
            let key = keys[k];
            if let Some(rank) = self.rules.get(&key) {
                let rank = *rank;
                let ghost before = self.heap@;
                self.heap.push((count - rank, key));
                proof {
                    assert(self.heap@[before.len() as int].1 == key);
                    assert forall|j: int|
                        0 <= j < k + 1 && self.rules@.contains_key(#[trigger] keys@[j]) implies exists|i: int|
                            0 <= i < self.heap@.len() && #[trigger] self.heap@[i].1 == keys@[j] by {
                        if j < k {
                            let i = choose|i: int| 0 <= i < before.len() && #[trigger] before[i].1 == keys@[j];
                            assert(self.heap@[i] == before[i]);
                        } else {
                            assert(self.heap@[before.len() as int].1 == keys@[j]);
                        }
                    }
                    assert forall|i: int| 0 <= i < self.heap@.len() implies self.rules@.contains_key(#[trigger] self.heap@[i].1) by {
                        if i < before.len() {
                            assert(self.heap@[i] == before[i]);
                        }
                    }
                    assert forall|i: int| 0 <= i < self.heap@.len() implies self.rules@.contains_key(#[trigger] self.heap@[i].1)
                        && self.heap@[i].0 == (self.rules@.len() - self.rules@[self.heap@[i].1]) as usize by {
                        if i < before.len() {
                            assert(self.heap@[i] == before[i]);
                        }
                    }
                }
            }
            k += 1;
        }
        proof {
            assert(back_linked(*self)) by {
                assert(back_linked(s0));
            }
            assert(indexed_but(*self, None)) by {
                assert(indexed_but(s0, None));
            }
            assert forall|p: int|
                0 <= p < self.sequence@.len() && !self.dead@[p] && #[trigger] self.next@[p] is Some && None::<u128> != Some(
                    key_at(*self, p),
                ) && self.rules@.contains_key(key_at(*self, p)) implies heap_has(self.heap@, key_at(*self, p)) by {
                let key = key_at(*self, p);
                assert(positions_of(pairs_view(self.pairs@), key).contains(p as usize));
                assert(pairs_view(self.pairs@).contains_key(key));
                assert(self.pairs@.contains_key(key));
                assert(keys@.contains(key));
                let j = choose|j: int| 0 <= j < keys@.len() && keys@[j] == key;
                assert(self.rules@.contains_key(keys@[j]));
                let h = choose|h: int| 0 <= h < self.heap@.len() && #[trigger] self.heap@[h].1 == keys@[j];
                assert(self.heap@[h].1 == key);
            }
            let bb = input.spec_bytes();
            if rule_pair_in(bb, self.rules@) {
                let pos = choose|pos: int|
                    0 <= pos < bb.len() - 1 && #[trigger] self.rules@.contains_key(
                        pair_code(single_token(bb[pos]), single_token(bb[pos + 1])) as u128,
                    );
                let key = pair_code(single_token(bb[pos]), single_token(bb[pos + 1])) as u128;
                assert(stands(s0, pos, key));
                assert(positions_of(pairs_view(self.pairs@), key).contains(pos as usize));
                assert(pairs_view(self.pairs@).contains_key(key));
                assert(self.pairs@.contains_key(key));
                assert(keys@.contains(key));
                let j = choose|j: int| 0 <= j < keys@.len() && keys@[j] == key;
                assert(self.rules@.contains_key(keys@[j]));
                let i = choose|i: int| 0 <= i < self.heap@.len() && #[trigger] self.heap@[i].1 == keys@[j];
                assert(stands(*self, pos, key));
                assert(good_key(*self, self.heap@[i].1));
            }
            assert(all_built(*self, self.rules@)) by {
                assert(all_built(s0, s0.rules@));
            }
            assert(fresh_text(*self, input.spec_bytes())) by {
                assert(fresh_text(s0, input.spec_bytes()));
            }
        }
        let ghost mut rounds: Seq<Tokenizer> = seq![*self];
        let ghost mut rkeys: Seq<u128> = Seq::empty();
        proof {
            if rules_fit(old(self).rules@) {
                assert(encode_trace(rounds, rkeys, input.spec_bytes()));
            }
        }
        loop
            invariant
                count == self.rules@.len(),
                heap_ranked(self.heap@, self.rules@),
                all_built(*self, old(self).rules@),
                rounds.len() == rkeys.len() + 1,
                same_tokens(rounds.last(), *self),
                rules_fit(old(self).rules@) ==> encode_trace(rounds, rkeys, input.spec_bytes()),
                self.wf(),
                self.rules == old(self).rules,
                self.encoder == old(self).encoder,
                self.vocab == old(self).vocab,
                self.bos == old(self).bos,
                self.sequence@.len() == input.spec_bytes().len(),
                heap_ruled(self.heap@, self.rules@),
                all_packed(self.sequence@),
                rules_fit(old(self).rules@) ==> live_text(self.sequence@, self.dead@, self.sequence@.len() as int)
                    == input.spec_bytes(),
                live_count(self.dead@) == input.spec_bytes().len() ==> (rule_pair_in(input.spec_bytes(), old(self).rules@)
                    ==> exists|i: int| 0 <= i < self.heap@.len() && #[trigger] good_key(*self, self.heap@[i].1)),
                live_count(self.dead@) <= input.spec_bytes().len(),
                back_linked(*self),
                rules_fit(old(self).rules@) ==> all_spelled(self.sequence@) && indexed_but(*self, None) && heap_covers_but(
                    *self,
                    None,
                ),
            ensures
                self.heap@.len() == 0,
                all_built(*self, old(self).rules@),
                same_tokens(rounds.last(), *self),
                rules_fit(old(self).rules@) ==> encode_trace(rounds, rkeys, input.spec_bytes()),
                rules_fit(old(self).rules@) ==> heap_covers_but(*self, None),
                live_count(self.dead@) == input.spec_bytes().len() ==> !rule_pair_in(input.spec_bytes(), old(self).rules@),
            decreases live_count(self.dead@), self.heap@.len(),
        {
            let ghost before = self.heap@;
            let ghost st = *self;
            match pop_max(&mut self.heap) {
                None => break,
                Some(rule) => {
                    proof {
                        let i = choose|i: int|
                            0 <= i < before.len() && before[i] == rule && self.heap@ == before.remove(i)
                                && forall|k: int| 0 <= k < before.len() ==> !entry_gt(#[trigger] before[k], rule);
                        assert(self.rules@.contains_key(before[i].1));
                        assert forall|j: int| 0 <= j < self.heap@.len() implies self.rules@.contains_key(#[trigger] self.heap@[j].1)
                            && self.heap@[j].0 == (self.rules@.len() - self.rules@[self.heap@[j].1]) as usize by {
                            if j < i {
                                assert(self.heap@[j] == before[j]);
                            } else {
                                assert(self.heap@[j] == before[j + 1]);
                            }
                        }
                    }
                    let ghost pre = *self;
                    proof {
                        let i = choose|i: int|
                            0 <= i < before.len() && before[i] == rule && self.heap@ == before.remove(i)
                                && forall|k: int| 0 <= k < before.len() ==> !entry_gt(#[trigger] before[k], rule);
                        assert(self.rules@.contains_key(rule.1));
                        if rules_fit(old(self).rules@) {
                            lemma_ruled_pair_fits(self.rules@, rule.1);
                            assert(indexed_but(*self, None)) by {
                                assert(indexed_but(st, None));
                            }
                            lemma_pop_keeps_cover(st, *self, i);
                            assert(merge_ready(*self, rule.1, false));
                        }
                    }
                    self.merge_pair(rule.1, false);
                    proof {
                        let nb = input.spec_bytes().len();
                        if live_count(self.dead@) == nb && rule_pair_in(input.spec_bytes(), old(self).rules@) {
                            let i = choose|i: int|
                                0 <= i < before.len() && before[i] == rule && pre.heap@ == before.remove(i)
                                    && forall|k: int| 0 <= k < before.len() ==> !entry_gt(#[trigger] before[k], rule);
                            assert(live_count(pre.dead@) == nb);
                            assert(live_count(st.dead@) == nb);
                            let g = choose|g: int| 0 <= g < before.len() && #[trigger] good_key(st, before[g].1);
                            let key = before[g].1;
                            let pw = choose|p: usize| #[trigger] positions_of(pairs_view(st.pairs@), key).contains(p) && stands(st, p as int, key);
                            assert(stands(pre, pw as int, key));
                            if key == rule.1 {
                                assert(pairs_view(pre.pairs@)[rule.1].contains(pw));
                                assert(false);
                            }
                            assert(positions_of(pairs_view(self.pairs@), key) == positions_of(pairs_view(pre.pairs@), key));
                            assert(stands(*self, pw as int, key));
                            assert(good_key(*self, key));
                            if g < i {
                                assert(self.heap@[g] == before[g]);
                                assert(good_key(*self, self.heap@[g].1));
                            } else {
                                assert(g != i);
                                assert(self.heap@[g - 1] == before[g]);
                                assert(good_key(*self, self.heap@[g - 1].1));
                            }
                        }
                    }
                    proof {
                        let key = rule.1;
                        if rules_fit(old(self).rules@) {
                            let i = choose|i: int|
                                0 <= i < before.len() && before[i] == rule && pre.heap@ == before.remove(i)
                                    && forall|k: int| 0 <= k < before.len() ==> !entry_gt(#[trigger] before[k], rule);
                            assert(good_key(st, key) == good_key(pre, key));
                            lemma_encode_round(st, rounds.last(), *self, rule, i);
                            lemma_trace_push(rounds, rkeys, input.spec_bytes(), *self, key);
                        }
                        rounds = rounds.push(*self);
                        rkeys = rkeys.push(key);
                    }
                },
            }
        }
        proof {
            if rules_fit(old(self).rules@) {
                assert forall|p: int|
                    0 <= p < self.sequence@.len() && !self.dead@[p] && #[trigger] self.next@[p] is Some implies !old(
                        self,
                    ).rules@.contains_key(key_at(*self, p)) by {
                    if old(self).rules@.contains_key(key_at(*self, p)) {
                        assert(heap_has(self.heap@, key_at(*self, p)));
                    }
                }
            }
        }
        out.clear();
        out.push(self.bos);
        let n = self.sequence.len();
        let mut i: usize = 0;
        while i < n
            invariant
                n == self.sequence@.len(),
                self.dead@.len() == n,
                i <= n,
                out@ == seq![old(self).bos] + live_ids(self.sequence@, self.dead@, self.encoder@, i as int),
                self.bos == old(self).bos,
            decreases n - i,
        {
            if !self.dead[i] {
                let c = self.sequence[i].code();
                if let Some(j) = self.encoder.get(&c) {
                    out.push(*j);
                }
            }
            i += 1;
            proof {
                assert(out@ =~= seq![old(self).bos] + live_ids(self.sequence@, self.dead@, self.encoder@, i as int));
            }
        }
        out.push(self.bos);
        proof {
            let n = self.sequence@.len() as int;
            lemma_live_count_le(self.dead@);
            assert forall|p: int| 0 <= p < n && !self.dead@[p] implies built(
                old(self).rules@,
                #[trigger] self.sequence@[p],
                input.spec_bytes().len() as nat,
            ) by {
                lemma_built_mono(old(self).rules@, self.sequence@[p], (n - live_count(self.dead@)) as nat, n as nat);
            }
            if rules_fit(old(self).rules@) {
                assert(encode_trace(rounds, rkeys, input.spec_bytes()) && same_tokens(rounds.last(), *self));
            }
            let vocab = self.vocab@;
            let ids = live_ids(self.sequence@, self.dead@, self.encoder@, n);
            let b = seq![self.bos];
            assert(out@.subrange(1, out@.len() - 1) =~= ids);
            if rules_fit(old(self).rules@) && encoder_spells(vocab, self.encoder@) && all_known(
                self.sequence@,
                self.dead@,
                self.encoder@,
                n,
            ) {
                lemma_decoded_live(vocab, self.sequence@, self.dead@, self.encoder@, n);
            }
            if rules_fit(old(self).rules@) && encoder_spells(vocab, self.encoder@) && self.bos >= vocab.len() && all_known(
                self.sequence@,
                self.dead@,
                self.encoder@,
                n,
            ) {
                lemma_decoded_live(vocab, self.sequence@, self.dead@, self.encoder@, n);
                lemma_decoded_concat(vocab, b, ids);
                lemma_decoded_concat(vocab, b + ids, b);
                assert(b.drop_first() =~= Seq::<usize>::empty());
                assert(decoded(vocab, Seq::<usize>::empty()) =~= Seq::<u8>::empty());
                assert(decoded(vocab, b) =~= Seq::<u8>::empty());
                assert(out@ =~= b + ids + b);
                assert(decoded(vocab, out@) =~= input.spec_bytes());
            }
        }
    }

    /// The keys of the recorded pairs.
    fn pair_keys(&self) -> (keys: Vec<u128>)
        ensures
            forall|k: int| 0 <= k < keys@.len() ==> self.pairs@.contains_key(#[trigger] keys@[k]),
            forall|key: u128| #[trigger] self.pairs@.contains_key(key) ==> keys@.contains(key),
            keys@.no_duplicates(),
    {
        let mut keys: Vec<u128> = Vec::new();
        let ghost all = vstd::std_specs::hash::spec_keys_iter(&self.pairs).remaining();
        for key in it: self.pairs.keys()
            invariant
                it.seq() == all,
                all.unref().to_set() == self.pairs@.dom(),
                all.no_duplicates(),
                keys@.len() == it.index(),
                forall|k: int| 0 <= k < it.index() ==> keys@[k] == *all[k],
        {
            keys.push(*key);
        }
        proof {
            assert(keys@ =~= all.unref());
            assert forall|k: int| 0 <= k < keys@.len() implies self.pairs@.contains_key(#[trigger] keys@[k]) by {
                assert(all.unref().to_set().contains(all.unref()[k]));
            }
            assert forall|key: u128| #[trigger] self.pairs@.contains_key(key) implies keys@.contains(key) by {
                assert(all.unref().to_set().contains(key));
            }
            assert forall|i: int, j: int| 0 <= i < keys@.len() && 0 <= j < keys@.len() && i != j implies keys@[i] != keys@[j] by {
                assert(all[i] != all[j]);
            }
        }
        keys
    }

    /// Maps the code of each vocabulary token to its position (the last one
    /// when a token occurs twice).
    fn get_encoder(&self) -> (enc: HashMap<u64, usize>)
        ensures
            forall|c: u64|
                #[trigger] enc@.contains_key(c) <==> exists|i: int|
                    0 <= i < self.vocab@.len() && token_code(#[trigger] self.vocab@[i]) == c,
            forall|c: u64|
                #[trigger] enc@.contains_key(c) ==> {
                    &&& enc@[c] < self.vocab@.len()
                    &&& token_code(self.vocab@[enc@[c] as int]) == c
                    &&& forall|j: int| enc@[c] < j < self.vocab@.len() ==> token_code(#[trigger] self.vocab@[j]) != c
                },
    {
        let mut enc: HashMap<u64, usize> = HashMap::new();
        let mut i: usize = 0;
        while i < self.vocab.len()
            invariant
                i <= self.vocab@.len(),
                forall|c: u64|
                    #[trigger] enc@.contains_key(c) <==> exists|m: int|
                        0 <= m < i && token_code(#[trigger] self.vocab@[m]) == c,
                forall|c: u64|
                    #[trigger] enc@.contains_key(c) ==> {
                        &&& enc@[c] < i
                        &&& token_code(self.vocab@[enc@[c] as int]) == c
                        &&& forall|j: int| enc@[c] < j < i ==> token_code(#[trigger] self.vocab@[j]) != c
                    },
            decreases self.vocab@.len() - i,
        {
            let c = self.vocab[i].code();
            enc.insert(c, i);
            i += 1;
            proof {
                assert forall|c2: u64|
                    #[trigger] enc@.contains_key(c2) implies exists|m: int|
                        0 <= m < i && token_code(#[trigger] self.vocab@[m]) == c2 by {
                    if c2 == c {
                        assert(token_code(self.vocab@[i - 1]) == c2);
                    }
                }
            }
        }
        enc
    }

    /// Learns merge rules from the candidates in `heap` and returns the
    /// vocabulary seen: the tokens of every candidate pair taken out, and
    /// their concatenation. A candidate whose count of positions is stale is
    /// put back with the current count; a current one has its pair merged
    /// everywhere. Stops when no candidate is left or the vocabulary has
    /// exactly `N_TOKENS` tokens.
    fn get_vocab(&mut self) -> (vocab: Vec<Token>)
        requires
            old(self).wf(),
        ensures
            final(self).wf(),
            final(self).encoder == old(self).encoder,
            final(self).vocab == old(self).vocab,
            final(self).bos == old(self).bos,
            final(self).sequence@.len() == old(self).sequence@.len(),
            codes_of(vocab@).no_duplicates(),
            final(self).heap@.len() == 0 || vocab@.len() == N_TOKENS,
            vocab@.len() == 0 <==> old(self).heap@.len() == 0,
            old(self).rules@.len() == 0 && heap_offers(old(self).heap@, pairs_view(old(self).pairs@)) ==> forall|key: u128|
                #[trigger] final(self).rules@.contains_key(key) && final(self).rules@[key] == 0 ==> most_positions(
                    *old(self),
                    key,
                ),
    {
        let mut seen: HashSet<u64> = HashSet::new();
        let mut vocab: Vec<Token> = Vec::new();
        let ghost law = old(self).rules@.len() == 0 && heap_offers(old(self).heap@, pairs_view(old(self).pairs@));
        let ghost pvo = pairs_view(old(self).pairs@);
        let ghost mut merged = false;
        proof {
            if law {
                assert(old(self).rules@.dom().finite());
                assert(old(self).rules@.dom() =~= Set::<u128>::empty());
            }
        }
        loop
            invariant
                self.wf(),
                self.encoder == old(self).encoder,
                self.vocab == old(self).vocab,
                self.bos == old(self).bos,
                self.sequence@.len() == old(self).sequence@.len(),
                codes_of(vocab@).no_duplicates(),
                forall|c: u64| #[trigger] seen@.contains(c) <==> codes_of(vocab@).contains(c as int),
                vocab@.len() == 0 ==> self.heap@.len() == old(self).heap@.len(),
                old(self).heap@.len() == 0 ==> vocab@.len() == 0,
                pvo == pairs_view(old(self).pairs@),
                law == (old(self).rules@.len() == 0 && heap_offers(old(self).heap@, pvo)),
                law ==> old(self).rules@.dom() == Set::<u128>::empty(),
                law && !merged ==> self.rules == old(self).rules && self.sequence == old(self).sequence && self.next
                    == old(self).next && self.dead == old(self).dead,
                law && !merged ==> forall|k: u128|
                    #[trigger] pairs_view(self.pairs@).contains_key(k) ==> pvo.contains_key(k) && pairs_view(self.pairs@)[k]
                        == pvo[k],
                law && !merged ==> forall|k: u128|
                    pvo.contains_key(k) && !pairs_view(self.pairs@).contains_key(k) ==> !#[trigger] good_key(*old(self), k),
                law && !merged ==> heap_offers(self.heap@, pairs_view(self.pairs@)),
                law ==> forall|key: u128|
                    #[trigger] self.rules@.contains_key(key) && self.rules@[key] == 0 ==> most_positions(*old(self), key),
                law && merged ==> self.rules@.len() >= 1,
            ensures
                self.heap@.len() == 0 || vocab@.len() == N_TOKENS,
                vocab@.len() == 0 <==> old(self).heap@.len() == 0,
                law ==> forall|key: u128|
                    #[trigger] self.rules@.contains_key(key) && self.rules@[key] == 0 ==> most_positions(*old(self), key),
            decreases live_count(self.dead@), heap_weight(self.heap@, pairs_view(self.pairs@)),
        {
            let ghost h0 = self.heap@;
            let ghost pv0 = pairs_view(self.pairs@);
            let rule = match pop_max(&mut self.heap) {
                None => break,
                Some(rule) => rule,
            };
            let (freq, pair) = rule;
            let ghost i = choose|i: int|
                0 <= i < h0.len() && h0[i] == rule && self.heap@ == h0.remove(i) && forall|k: int|
                    0 <= k < h0.len() ==> !entry_gt(#[trigger] h0[k], rule);
            proof {
                lemma_heap_weight_remove(h0, i, pv0);
            }
            let current = match self.pairs.get(&pair) {
                Some(positions) => Some(positions.len()),
                None => None,
            };
            if let Some(current) = current {
                proof {
                    assert(pv0.contains_key(pair));
                    assert(current == pv0[pair].len());
                }
                if freq != current {
                    proof {
                        lemma_heap_weight_push(self.heap@, (current, pair), pv0);
                        if law && !merged {
                            let extra = seq![(current, pair)];
                            assert(extra[0].1 == pair && extra[0].0 >= pv0[pair].len());
                            lemma_heap_offers_remove(h0, i, extra, pv0, pv0, pair);
                            assert(h0.remove(i) + extra =~= self.heap@.push((current, pair)));
                        }
                    }
                    self.heap.push((current, pair));
                    continue;
                }
                let ghost hb = self.heap@;
                let ghost before = *self;
                self.merge_pair(pair, true);
                proof {
                    lemma_heap_weight_unindex(hb, pv0, pair);
                    if law {
                        assert(self.rules@.dom().finite());
                        assert(before.rules@.dom().finite());
                        if !merged {
                            assert forall|k: u128| #[trigger] good_key(*old(self), k) implies positions_of(pvo, k).len()
                                <= positions_of(pvo, pair).len() by {
                                let p = choose|p: usize| #[trigger] positions_of(pvo, k).contains(p) && stands(*old(self), p as int, k);
                                assert(pvo.contains_key(k));
                                if pv0.contains_key(k) {
                                    let j = choose|j: int| 0 <= j < h0.len() && (#[trigger] h0[j]).1 == k && h0[j].0 >= pv0[k].len();
                                    assert(!entry_gt(h0[j], rule));
                                }
                            }
                            assert(most_positions(*old(self), pair));
                            if live_count(self.dead@) < live_count(before.dead@) {
                                assert(self.rules@ == old(self).rules@.insert(pair, 0usize));
                                merged = true;
                                assert(self.rules@.dom() =~= set![pair]);
                                assert(self.rules@.len() == 1) by {
                                    assert(set![pair].len() == 1);
                                }
                            } else {
                                assert(pairs_view(self.pairs@) == pv0.remove(pair));
                                if good_key(*old(self), pair) {
                                    let p = choose|p: usize|
                                        #[trigger] positions_of(pvo, pair).contains(p) && stands(*old(self), p as int, pair);
                                    assert(pv0[pair].contains(p) && stands(before, p as int, pair));
                                }
                                assert forall|k: u128|
                                    #[trigger] pairs_view(self.pairs@).contains_key(k) && k != pair implies pv0.contains_key(k)
                                        && pairs_view(self.pairs@)[k].len() <= pv0[k].len() by {}
                                lemma_heap_offers_remove(h0, i, Seq::empty(), pv0, pairs_view(self.pairs@), pair);
                                assert(h0.remove(i) + Seq::<(usize, u128)>::empty() =~= self.heap@);
                            }
                        } else {
                            if live_count(self.dead@) < live_count(before.dead@) {
                                assert(self.rules@ == before.rules@.insert(pair, before.rules@.len() as usize));
                                assert(before.rules@.len() >= 1);
                                assert(vstd::std_specs::hash::spec_hash_map_len(&before.rules) == before.rules@.len());
                                assert(before.rules@.len() as usize != 0);
                                assert forall|key: u128|
                                    #[trigger] self.rules@.contains_key(key) && self.rules@[key] == 0 implies most_positions(
                                        *old(self),
                                        key,
                                    ) by {
                                    assert(key != pair);
                                    assert(before.rules@.contains_key(key) && before.rules@[key] == 0);
                                }
                                if before.rules@.contains_key(pair) {
                                    assert(self.rules@.dom() =~= before.rules@.dom());
                                } else {
                                    assert(self.rules@.dom() =~= before.rules@.dom().insert(pair));
                                }
                            }
                        }
                    }
                }
            } else {
                proof {
                    if law && !merged {
                        assert(!pv0.contains_key(pair));
                        lemma_heap_offers_remove(h0, i, Seq::empty(), pv0, pv0, pair);
                        assert(h0.remove(i) + Seq::<(usize, u128)>::empty() =~= self.heap@);
                    }
                }
            }
            let (a, b) = pair_from_code(pair);
            let merged = a + b;
            self.insert_seen(&mut seen, &mut vocab, a);
            self.insert_seen(&mut seen, &mut vocab, b);
            self.insert_seen(&mut seen, &mut vocab, merged);
            if vocab.len() == N_TOKENS {
                break;
            }
        }
        vocab
    }

    /// Adds `t` to `vocab` unless a token with its code is already there.
    fn insert_seen(&self, seen: &mut HashSet<u64>, vocab: &mut Vec<Token>, t: Token)
        requires
            codes_of(old(vocab)@).no_duplicates(),
            forall|c: u64| #[trigger] old(seen)@.contains(c) <==> codes_of(old(vocab)@).contains(c as int),
        ensures
            codes_of(final(vocab)@).no_duplicates(),
            forall|c: u64| #[trigger] final(seen)@.contains(c) <==> codes_of(final(vocab)@).contains(c as int),
            codes_of(final(vocab)@).contains(token_code(t)),
            final(vocab)@ == old(vocab)@ || final(vocab)@ == old(vocab)@.push(t),
    {
        let c = t.code();
        proof {
            lemma_token_code_bound(t);
        }
        if !seen.contains(&c) {
            seen.insert(c);
            vocab.push(t);
            proof {
                assert(codes_of(vocab@) =~= codes_of(old(vocab)@).push(c as int));
                assert(!codes_of(old(vocab)@).contains(c as int));
                assert forall|c2: u64| #[trigger] seen@.contains(c2) <==> codes_of(vocab@).contains(c2 as int) by {
                    if c2 == c {
                        assert(codes_of(vocab@)[vocab@.len() - 1] == c2 as int);
                    } else {
                        if codes_of(vocab@).contains(c2 as int) {
                            let k = choose|k: int| 0 <= k < codes_of(vocab@).len() && codes_of(vocab@)[k] == c2 as int;
                            assert(k < old(vocab)@.len());
                            assert(codes_of(old(vocab)@)[k] == c2 as int);
                            assert(codes_of(old(vocab)@).contains(c2 as int));
                            assert(old(seen)@.contains(c2));
                        }
                        if seen@.contains(c2) {
                            assert(old(seen)@.contains(c2));
                            assert(codes_of(old(vocab)@).contains(c2 as int));
                            let k = choose|k: int| 0 <= k < codes_of(old(vocab)@).len() && codes_of(old(vocab)@)[k] == c2 as int;
                            assert(codes_of(vocab@)[k] == c2 as int);
                        }
                    }
                }
                assert(codes_of(vocab@)[vocab@.len() - 1] == token_code(t));
            }
        } else {
            proof {
                assert(codes_of(vocab@).contains(c as int));
            }
        }
    }

    /// Learns rules and a vocabulary from `lines`: their bytes are indexed
    /// as pairs (after any positions the sequence already holds, whose pairs
    /// count too), every pair is offered with its count of positions, the
    /// vocabulary is grown from them, the encoder maps each vocabulary token
    /// to its position, and the begin marker takes the id after the last
    /// vocabulary entry.
    pub fn train(&mut self, lines: &[String])
        requires
            old(self).wf(),
            old(self).links_ok_shape(),
            forall|k: int|
                0 <= k < lines@.len() && byte_len(#[trigger] lines@[k]) == 1 ==> old(self).sequence@.len() + total_len(
                    lines@,
                    k,
                ) > 0,
            old(self).sequence@.len() + total_len(lines@, lines@.len() as int) < usize::MAX,
        ensures
            final(self).wf(),
            codes_of(final(self).vocab@).no_duplicates(),
            final(self).bos == final(self).vocab@.len(),
            forall|c: u64|
                #[trigger] final(self).encoder@.contains_key(c) <==> codes_of(final(self).vocab@).contains(c as int),
            forall|c: u64|
                #[trigger] final(self).encoder@.contains_key(c) ==> token_code(
                    final(self).vocab@[final(self).encoder@[c] as int],
                ) == c,
            encoder_spells(final(self).vocab@, final(self).encoder@),
            final(self).encoder_ok(),
            (exists|j: int| 0 <= j < lines@.len() && byte_len(#[trigger] lines@[j]) >= 2) ==> final(self).vocab@.len() > 0,
            old(self).rules@.len() == 0 ==> forall|key: u128, k: u128|
                #[trigger] final(self).rules@.contains_key(key) && final(self).rules@[key] == 0 && #[trigger] trained_pair(
                    pairs_view(old(self).pairs@),
                    old(self).sequence@.len() as int,
                    lines@,
                    k,
                ) ==> trained_positions(
                    pairs_view(old(self).pairs@),
                    old(self).sequence@.len() as int,
                    lines@,
                    lines@.len() as int,
                    k,
                ).len() <= trained_positions(
                    pairs_view(old(self).pairs@),
                    old(self).sequence@.len() as int,
                    lines@,
                    lines@.len() as int,
                    key,
                ).len(),
    {
        let ghost pvo = pairs_view(old(self).pairs@);
        let ghost l0 = old(self).sequence@.len() as int;
        let mut k: usize = 0;
        proof {
            assert forall|key: u128, p: usize|
                #[trigger] positions_of(pairs_view(self.pairs@), key).contains(p) && p >= l0 implies false by {
                assert(pairs_view(self.pairs@).contains_key(key));
            }
        }
        while k < lines.len()
            invariant
                pvo == pairs_view(old(self).pairs@),
                l0 == old(self).sequence@.len(),
                self.rules == old(self).rules,
                forall|key: u128|
                    #![trigger positions_of(pairs_view(self.pairs@), key)]
                    positions_of(pairs_view(self.pairs@), key) == trained_positions(pvo, l0, lines@, k as int, key),
                forall|key: u128, p: usize|
                    #[trigger] positions_of(pairs_view(self.pairs@), key).contains(p) && p >= l0 ==> p + 1
                        < self.sequence@.len() && self.next@[p as int] == Some((p + 1) as usize) && pair_code(
                        self.sequence@[p as int],
                        self.sequence@[p + 1],
                    ) == key as int,
                k <= lines@.len(),
                self.sequence@.len() == old(self).sequence@.len() + total_len(lines@, k as int),
                self.sequence@.len() == self.prev@.len(),
                self.sequence@.len() == self.next@.len(),
                forall|j: int|
                    0 <= j < lines@.len() && byte_len(#[trigger] lines@[j]) == 1 ==> old(self).sequence@.len()
                        + total_len(lines@, j) > 0,
                old(self).sequence@.len() + total_len(lines@, lines@.len() as int) < usize::MAX,
                self.links_ok_shape(),
                self.positions_ok(),
                self.rules_ok(),
                (exists|j: int| 0 <= j < k && byte_len(#[trigger] lines@[j]) >= 2) ==> exists|key: u128, pos: usize|
                    #[trigger] positions_of(pairs_view(self.pairs@), key).contains(pos),
            decreases lines@.len() - k,
        {
            proof {
                lemma_total_len_mono(lines@, k + 1, lines@.len() as int);
            }
            let line = lines[k].as_str();
            let ghost pv_before = pairs_view(self.pairs@);
            let ghost len_before = self.sequence@.len();
            let ghost st_before = *self;
            self.add_input(line);
            proof {
                let bl = line.spec_bytes();
                assert(bl == vstd::utf8::encode_utf8(lines@[k as int]@));
                assert(len_before == l0 + total_len(lines@, k as int));
                assert forall|key: u128|
                    #![trigger positions_of(pairs_view(self.pairs@), key)]
                    positions_of(pairs_view(self.pairs@), key) == trained_positions(pvo, l0, lines@, k + 1, key) by {
                    assert(positions_of(pv_before, key) == trained_positions(pvo, l0, lines@, k as int, key));
                    assert(positions_of(pairs_view(self.pairs@), key) =~= trained_positions(pvo, l0, lines@, k + 1, key));
                }
                assert forall|key: u128, p: usize|
                    #[trigger] positions_of(pairs_view(self.pairs@), key).contains(p) && p >= l0 implies p + 1
                        < self.sequence@.len() && self.next@[p as int] == Some((p + 1) as usize) && pair_code(
                        self.sequence@[p as int],
                        self.sequence@[p + 1],
                    ) == key as int by {
                    if positions_of(pv_before, key).contains(p) {
                        assert(st_before.sequence@.len() == st_before.next@.len());
                        assert(self.next@[p as int] == st_before.next@[p as int]);
                        assert(self.sequence@[p as int] == st_before.sequence@[p as int]);
                        assert(self.sequence@[p + 1] == st_before.sequence@[p + 1]);
                    } else {
                        let q = p - len_before;
                        assert(self.sequence@[p as int] == single_token(bl[q]));
                        assert(self.sequence@[p + 1] == single_token(bl[q + 1]));
                    }
                }
                if exists|j: int| 0 <= j < k + 1 && byte_len(#[trigger] lines@[j]) >= 2 {
                    if exists|j: int| 0 <= j < k && byte_len(#[trigger] lines@[j]) >= 2 {
                        let (key, pos) = choose|key: u128, pos: usize| #[trigger] positions_of(pv_before, key).contains(pos);
                        assert(positions_of(pairs_view(self.pairs@), key).contains(pos));
                    } else {
                        assert(byte_len(lines@[k as int]) >= 2);
                        assert(bl.len() >= 2);
                        lemma_pair_code_bound(single_token(bl[0]), single_token(bl[1]));
                        let key = pair_code(single_token(bl[0]), single_token(bl[1])) as u128;
                        let pos = len_before as usize;
                        assert(positions_of(pairs_view(self.pairs@), key).contains(pos));
                    }
                }
            }
            k += 1;
            proof {
                let n = self.sequence@.len();
                assert forall|key: u128, pos: usize|
                    #[trigger] pairs_view(self.pairs@).contains_key(key) && #[trigger] pairs_view(
                        self.pairs@,
                    )[key].contains(pos) implies pos < n by {
                    assert(positions_of(pairs_view(self.pairs@), key).contains(pos));
                    if positions_of(pv_before, key).contains(pos) {
                        assert(pv_before.contains_key(key));
                        assert(pos < len_before);
                    }
                }
            }
        }
        let n = self.sequence.len();
        self.dead.resize(n, false);
        self.revive_all();
        let keys = self.pair_keys();
        proof {
            if exists|j: int| 0 <= j < lines@.len() && byte_len(#[trigger] lines@[j]) >= 2 {
                let (key, pos) = choose|key: u128, pos: usize| #[trigger] positions_of(pairs_view(self.pairs@), key).contains(pos);
                assert(pairs_view(self.pairs@).contains_key(key));
                assert(self.pairs@.contains_key(key));
                assert(keys@.contains(key));
            }
        }
        let ghost heap0 = self.heap@.len();
        let ghost st0 = *self;
        let mut i: usize = 0;
        while i < keys.len()
            invariant
                self.wf(),
                forall|m: int| 0 <= m < keys@.len() ==> self.pairs@.contains_key(#[trigger] keys@[m]),
                self.heap@.len() == heap0 + i,
                i <= keys@.len(),
                self.pairs == st0.pairs,
                self.sequence == st0.sequence,
                self.next == st0.next,
                self.dead == st0.dead,
                self.rules == st0.rules,
                forall|m: int|
                    #![trigger keys@[m]]
                    0 <= m < i ==> exists|j: int|
                        0 <= j < self.heap@.len() && (#[trigger] self.heap@[j]).1 == keys@[m] && self.heap@[j].0
                            >= pairs_view(self.pairs@)[keys@[m]].len(),
            decreases keys@.len() - i,
        {
            let key = keys[i];
            let freq = match self.pairs.get(&key) {
                Some(positions) => positions.len(),
                None => 0,
            };
            let ghost hb = self.heap@;
            self.heap.push((freq, key));
            proof {
                assert(self.pairs@.contains_key(key));
                assert(freq == pairs_view(self.pairs@)[key].len());
                assert forall|m: int| #![trigger keys@[m]] 0 <= m < i + 1 implies exists|j: int|
                    0 <= j < self.heap@.len() && (#[trigger] self.heap@[j]).1 == keys@[m] && self.heap@[j].0
                        >= pairs_view(self.pairs@)[keys@[m]].len() by {
                    if m < i {
                        let j = choose|j: int|
                            0 <= j < hb.len() && (#[trigger] hb[j]).1 == keys@[m] && hb[j].0 >= pairs_view(self.pairs@)[keys@[m]].len();
                        assert(self.heap@[j] == hb[j]);
                    } else {
                        assert(self.heap@[hb.len() as int] == (freq, key));
                    }
                }
            }
            i += 1;
        }
        let ghost st = *self;
        proof {
            assert forall|key: u128| #[trigger] pairs_view(self.pairs@).contains_key(key) implies exists|j: int|
                0 <= j < self.heap@.len() && (#[trigger] self.heap@[j]).1 == key && self.heap@[j].0 >= pairs_view(self.pairs@)[key].len() by {
                assert(self.pairs@.contains_key(key));
                assert(keys@.contains(key));
                let m = choose|m: int| 0 <= m < keys@.len() && keys@[m] == key;
                assert(0 <= m < i);
            }
            assert(heap_offers(self.heap@, pairs_view(self.pairs@)));
        }
        self.vocab = self.get_vocab();
        self.encoder = self.get_encoder();
        self.bos = self.vocab.len();
        proof {
            if old(self).rules@.len() == 0 {
                let nl = lines@.len() as int;
                assert forall|key: u128, k: u128|
                    #[trigger] self.rules@.contains_key(key) && self.rules@[key] == 0 && #[trigger] trained_pair(pvo, l0, lines@, k) implies trained_positions(
                        pvo,
                        l0,
                        lines@,
                        nl,
                        k,
                    ).len() <= trained_positions(pvo, l0, lines@, nl, key).len() by {
                    assert(most_positions(st, key));
                    let p = choose|p: usize| l0 <= p && #[trigger] trained_positions(pvo, l0, lines@, nl, k).contains(p);
                    assert(positions_of(pairs_view(st.pairs@), k) == trained_positions(pvo, l0, lines@, nl, k));
                    assert(positions_of(pairs_view(st.pairs@), key) == trained_positions(pvo, l0, lines@, nl, key));
                    assert(positions_of(pairs_view(st.pairs@), k).contains(p));
                    assert(stands(st, p as int, k));
                    assert(good_key(st, k));
                }
            }
        }
        proof {
            assert forall|c: u64|
                #[trigger] self.encoder@.contains_key(c) <==> codes_of(self.vocab@).contains(c as int) by {
                if self.encoder@.contains_key(c) {
                    let i = choose|i: int| 0 <= i < self.vocab@.len() && token_code(#[trigger] self.vocab@[i]) == c;
                    assert(codes_of(self.vocab@)[i] == c as int);
                }
                if codes_of(self.vocab@).contains(c as int) {
                    let i = choose|i: int| 0 <= i < codes_of(self.vocab@).len() && codes_of(self.vocab@)[i] == c as int;
                    assert(token_code(self.vocab@[i]) == c);
                }
            }
        }
    }

    /// Appends the bytes of `input` to the sequence as single-byte tokens,
    /// linked to each other, and records their adjacent pairs. The first
    /// token links back to the previous last token when `input` has a
    /// single byte.
    pub fn add_input(&mut self, input: &str)
        requires
            old(self).sequence@.len() == old(self).prev@.len(),
            old(self).sequence@.len() == old(self).next@.len(),
            input.spec_bytes().len() == 1 ==> old(self).sequence@.len() > 0,
            old(self).sequence@.len() + input.spec_bytes().len() < usize::MAX,
        ensures
            ({
                let b = input.spec_bytes();
                let l = old(self).sequence@.len() as int;
                let m = b.len() as int;
                &&& final(self).sequence@ == old(self).sequence@ + byte_tokens(b)
                &&& final(self).prev@ == old(self).prev@ + Seq::new(
                    m as nat,
                    |k: int|
                        if k == 0 && m > 1 {
                            None
                        } else {
                            Some((l + k - 1) as usize)
                        },
                )
                &&& final(self).next@ == old(self).next@ + Seq::new(
                    m as nat,
                    |k: int|
                        if k + 1 < m {
                            Some((l + k + 1) as usize)
                        } else {
                            None
                        },
                )
                &&& final(self).dead@ == Seq::new(
                    (l + m) as nat,
                    |k: int|
                        if k < old(self).dead@.len() {
                            old(self).dead@[k]
                        } else {
                            false
                        },
                )
                &&& forall|key: u128|
                    #![trigger positions_of(pairs_view(final(self).pairs@), key)]
                    positions_of(pairs_view(final(self).pairs@), key) == positions_of(
                        pairs_view(old(self).pairs@),
                        key,
                    ).union(
                        Set::new(
                            |pos: usize|
                                l <= pos < l + m - 1 && pair_code(
                                    single_token(b[pos - l]),
                                    single_token(b[pos - l + 1]),
                                ) == key,
                        ),
                    )
                &&& pairs_view(old(self).pairs@).dom().subset_of(pairs_view(final(self).pairs@).dom())
            }),
            final(self).rules == old(self).rules,
            final(self).encoder == old(self).encoder,
            final(self).vocab == old(self).vocab,
            final(self).heap == old(self).heap,
            final(self).bos == old(self).bos,
    {
        let bytes = input.as_bytes();
        let ghost b = input.spec_bytes();
        let ghost l = old(self).sequence@.len() as int;
        let ghost m = b.len() as int;
        let ghost pv0 = pairs_view(old(self).pairs@);
        let mut i: usize = 0;
        while i + 1 < bytes.len()
            invariant
                bytes@ == b,
                m == b.len(),
                l == old(self).sequence@.len(),
                l + m < usize::MAX,
                0 <= i,
                i == 0 || i < m,
                self.sequence@.len() == l + i,
                self.prev@.len() == l + i,
                self.next@.len() == l + i,
                self.sequence@ == old(self).sequence@ + byte_tokens(b).take(i as int),
                self.prev@ == old(self).prev@ + Seq::new(
                    i as nat,
                    |k: int|
                        if k == 0 {
                            None
                        } else {
                            Some((l + k - 1) as usize)
                        },
                ),
                self.next@ == old(self).next@ + Seq::new(i as nat, |k: int| Some((l + k + 1) as usize)),
                forall|key: u128|
                    #![trigger positions_of(pairs_view(self.pairs@), key)]
                    positions_of(pairs_view(self.pairs@), key) == positions_of(pv0, key).union(
                        Set::new(
                            |pos: usize|
                                l <= pos < l + i && pair_code(
                                    single_token(b[pos - l]),
                                    single_token(b[pos - l + 1]),
                                ) == key,
                        ),
                    ),
                pv0.dom().subset_of(pairs_view(self.pairs@).dom()),
                self.dead == old(self).dead,
                self.rules == old(self).rules,
                self.encoder == old(self).encoder,
                self.vocab == old(self).vocab,
                self.heap == old(self).heap,
                self.bos == old(self).bos,
            decreases m - i,
        {
            let left = Token::new(bytes[i]);
            let right = Token::new(bytes[i + 1]);
            proof {
                assert(left =~= single_token(b[i as int]));
                assert(right =~= single_token(b[i + 1]));
            }
            let pos = self.sequence.len();
            self.sequence.push(left);
            let key = pair_key(&left, &right);
            let ghost pv1 = pairs_view(self.pairs@);
            let ghost old_i = i as int;
            assert(forall|k: u128| #![trigger positions_of(pv1, k)]
                positions_of(pv1, k) == positions_of(pv0, k).union(
                    Set::new(
                        |p: usize|
                            l <= p < l + old_i && pair_code(
                                single_token(b[p - l]),
                                single_token(b[p - l + 1]),
                            ) == k,
                    ),
                ));
            self.record_position(key, pos);
            proof {
                assert forall|k: u128| #![trigger positions_of(pairs_view(self.pairs@), k)]
                    positions_of(pairs_view(self.pairs@), k) == positions_of(pv0, k).union(
                        Set::new(
                            |p: usize|
                                l <= p < l + i + 1 && pair_code(
                                    single_token(b[p - l]),
                                    single_token(b[p - l + 1]),
                                ) == k,
                        ),
                    ) by {
                    assert(positions_of(pv1, k) == positions_of(pv0, k).union(
                        Set::new(
                            |p: usize|
                                l <= p < l + old_i && pair_code(
                                    single_token(b[p - l]),
                                    single_token(b[p - l + 1]),
                                ) == k,
                        ),
                    ));
                    assert(key == pair_code(single_token(b[pos - l]), single_token(b[pos - l + 1])));
                    assert(positions_of(pairs_view(self.pairs@), k) =~= positions_of(pv0, k).union(
                        Set::new(
                            |p: usize|
                                l <= p < l + i + 1 && pair_code(
                                    single_token(b[p - l]),
                                    single_token(b[p - l + 1]),
                                ) == k,
                        ),
                    ));
                }
            }
            if i == 0 {
                self.prev.push(None);
            } else {
                self.prev.push(Some(pos - 1));
            }
            self.next.push(Some(pos + 1));
            i += 1;
            proof {
                assert(self.sequence@ =~= old(self).sequence@ + byte_tokens(b).take(i as int));
                assert(self.prev@ =~= old(self).prev@ + Seq::new(
                    i as nat,
                    |k: int|
                        if k == 0 {
                            None
                        } else {
                            Some((l + k - 1) as usize)
                        },
                ));
                assert(self.next@ =~= old(self).next@ + Seq::new(i as nat, |k: int| Some((l + k + 1) as usize)));
            }
        }
        if bytes.len() > 0 {
            let last = Token::new(bytes[bytes.len() - 1]);
            proof {
                assert(last =~= single_token(b[m - 1]));
            }
            self.prev.push(Some(self.sequence.len() - 1));
            self.sequence.push(last);
            self.next.push(None);
        }
        let n = self.sequence.len();
        self.dead.resize(n, false);
        proof {
            if m > 0 {
                assert(i == m - 1);
            }
            assert(self.sequence@ =~= old(self).sequence@ + byte_tokens(b));
            assert(self.prev@ =~= old(self).prev@ + Seq::new(
                m as nat,
                |k: int|
                    if k == 0 && m > 1 {
                        None
                    } else {
                        Some((l + k - 1) as usize)
                    },
            ));
            assert(self.next@ =~= old(self).next@ + Seq::new(
                m as nat,
                |k: int|
                    if k + 1 < m {
                        Some((l + k + 1) as usize)
                    } else {
                        None
                    },
            ));
            assert(self.dead@ =~= Seq::new(
                (l + m) as nat,
                |k: int|
                    if k < old(self).dead@.len() {
                        old(self).dead@[k]
                    } else {
                        false
                    },
            ));
            assert forall|key: u128| #![trigger positions_of(pairs_view(self.pairs@), key)]
                positions_of(pairs_view(self.pairs@), key) == positions_of(pv0, key).union(
                    Set::new(
                        |pos: usize|
                            l <= pos < l + m - 1 && pair_code(
                                single_token(b[pos - l]),
                                single_token(b[pos - l + 1]),
                            ) == key,
                    ),
                ) by {
                assert(Set::new(
                    |pos: usize|
                        l <= pos < l + m - 1 && pair_code(
                            single_token(b[pos - l]),
                            single_token(b[pos - l + 1]),
                        ) == key,
                ) =~= Set::new(
                    |pos: usize|
                        l <= pos < l + i && pair_code(
                            single_token(b[pos - l]),
                            single_token(b[pos - l + 1]),
                        ) == key,
                ));
            }
        }
    }
}


/// `a` comes before `b` in the candidate order: higher priority first, then
/// the larger pair.
pub open spec fn entry_gt(a: (usize, u128), b: (usize, u128)) -> bool {
    a.0 > b.0 || (a.0 == b.0 && a.1 > b.1)
}

/// Removes and returns a greatest candidate (`None` when there is none).
pub fn pop_max(heap: &mut Vec<(usize, u128)>) -> (r: Option<(usize, u128)>)
    ensures
        old(heap)@.len() == 0 <==> r is None,
        r is None ==> final(heap)@ == old(heap)@,
        r matches Some(e) ==> exists|i: int|
            0 <= i < old(heap)@.len() && old(heap)@[i] == e && final(heap)@ == old(heap)@.remove(i)
                && forall|k: int| 0 <= k < old(heap)@.len() ==> !entry_gt(#[trigger] old(heap)@[k], e),
{
    if heap.len() == 0 {
        return None;
    }
    let mut best: usize = 0;
    let mut k: usize = 1;
    while k < heap.len()
        invariant
            heap@ == old(heap)@,
            0 <= best < heap@.len(),
            1 <= k <= heap@.len(),
            forall|m: int| 0 <= m < k ==> !entry_gt(#[trigger] heap@[m], heap@[best as int]),
        decreases heap@.len() - k,
    {
        let a = heap[k];
        let b = heap[best];
        if a.0 > b.0 || (a.0 == b.0 && a.1 > b.1) {
            best = k;
        }
        k += 1;
    }
    let e = heap.remove(best);
    Some(e)
}

/// Number of live positions drops by one when a live position dies.
pub proof fn lemma_live_count_kill(dead: Seq<bool>, e: int)
    requires
        0 <= e < dead.len(),
        !dead[e],
    ensures
        live_count(dead.update(e, true)) + 1 == live_count(dead),
    decreases dead.len(),
{
    let d2 = dead.update(e, true);
    if e == dead.len() - 1 {
        assert(d2.drop_last() =~= dead.drop_last());
    } else {
        lemma_live_count_kill(dead.drop_last(), e);
        assert(d2.drop_last() =~= dead.drop_last().update(e, true));
    }
}

} // verus!
