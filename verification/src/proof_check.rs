//! Checking a Merkle sum-tree membership proof: parsing its fields,
//! recomputing the path from the leaf to the root, and comparing the root
//! hash and total balance with the declared and expected ones.

use vstd::prelude::*;
use vstd::string::StringExecFns;
use vstd::utf8::{encode_utf8, is_char_boundary, is_continuation_byte};

use crate::decimal::{Decimal, checked_add, decimal_parse, decimal_sum, parse};
use crate::text::{ascii_upper, is_white_space, string_from_chars, trim, trim_end_spec, trim_spec, trim_start_spec};

verus! {

/// One step of a Merkle path, as received.
#[derive(Debug)]
pub struct ProofStepPayload {
    pub sibling_hash: String,
    pub sibling_balance: String,
    pub sibling_is_left: bool,
}

/// A membership proof, as received.
#[derive(Debug)]
pub struct ProofPayload {
    pub user_id: u64,
    pub leaf_balance: String,
    pub root_hash: String,
    pub root_balance: String,
    pub merkle_path: Vec<ProofStepPayload>,
}

/// What the verifier expects the proof to show.
#[derive(Debug)]
pub struct PublicInputsPayload {
    pub expected_root_hash: String,
    pub expected_root_balance: String,
    pub expected_user_id: Option<u64>,
}

/// The value of a hex digit byte.
pub open spec fn hex_val(b: u8) -> Option<nat> {
    if 48 <= b <= 57 {
        Some((b - 48) as nat)
    } else if 97 <= b <= 102 {
        Some((b - 87) as nat)
    } else if 65 <= b <= 70 {
        Some((b - 55) as nat)
    } else {
        None
    }
}

/// `u8::from_str_radix(pair, 16)` for a text of two bytes: an optional `+`
/// followed by hex digits.
pub open spec fn pair_value(b0: u8, b1: u8) -> Option<nat> {
    if b0 == 43 {
        hex_val(b1)
    } else if hex_val(b0) is Some && hex_val(b1) is Some {
        Some(16 * hex_val(b0)->0 + hex_val(b1)->0)
    } else {
        None
    }
}

/// The 32 bytes written as 64 hex digits in `s` (surrounding white space
/// ignored), or the reason they are not.
pub open spec fn hash_hex_spec(s: Seq<char>) -> Result<Seq<u8>, Seq<char>> {
    let b = encode_utf8(trim_spec(s));
    if b.len() != 64 {
        Err("hash must be 64 hex chars"@)
    } else if exists|i: int| 0 <= i < 32 && #[trigger] pair_value(b[2 * i], b[2 * i + 1]) is None {
        Err("invalid hex hash"@)
    } else {
        Ok(Seq::new(32, |i: int| pair_value(b[2 * i], b[2 * i + 1])->0 as u8))
    }
}

/// Reading pair `i` of a 64-byte text slices it at byte `2i + 2`; this is a
/// character boundary whenever every earlier pair was read.
pub open spec fn pairs_sliceable(s: Seq<char>) -> bool {
    let b = encode_utf8(trim_spec(s));
    b.len() == 64 ==> forall|i: int|
        0 <= i < 32 && (forall|j: int| 0 <= j < i ==> #[trigger] pair_value(b[2 * j], b[2 * j + 1]) is Some)
            ==> #[trigger] is_char_boundary(b, 2 * i + 2)
}

fn hex_digit_value(b: u8) -> (r: Option<u8>)
    ensures
        r is Some <==> hex_val(b) is Some,
        r is Some ==> r->0 == hex_val(b)->0 && r->0 < 16,
{
    if 48 <= b && b <= 57 {
        Some(b - 48)
    } else if 97 <= b && b <= 102 {
        Some(b - 87)
    } else if 65 <= b && b <= 70 {
        Some(b - 55)
    } else {
        None
    }
}

/// Parses a 32-byte hash written as 64 hex digits.
pub fn parse_hash_hex(value: &str) -> (r: Result<[u8; 32], String>)
    requires
        pairs_sliceable(value@),
    ensures
        match hash_hex_spec(value@) {
            Ok(h) => r is Ok && r->Ok_0@ == h,
            Err(m) => r is Err && r->Err_0@ == m,
        },
{
    let normalized = trim(value);
    let b = normalized.as_bytes();
    if b.len() != 64 {
        return Err(String::from_str("hash must be 64 hex chars"));
    }
    let mut out = [0u8; 32];
    let mut i: usize = 0;
    while i < 32
        invariant
            i <= 32,
            b@ == encode_utf8(trim_spec(value@)),
            b@.len() == 64,
            forall|j: int| 0 <= j < i ==> #[trigger] pair_value(b@[2 * j], b@[2 * j + 1]) is Some,
            forall|j: int| 0 <= j < i ==> out@[j] == pair_value(b@[2 * j], b@[2 * j + 1])->0 as u8,
            out@.len() == 32,
        decreases 32 - i,
    {
        let b0 = b[2 * i];
        let b1 = b[2 * i + 1];
        let d1 = hex_digit_value(b1);
        let d0 = hex_digit_value(b0);
        let v: u8 = if b0 == 43 {
            match d1 {
                Some(x) => x,
                None => {
                    return Err(String::from_str("invalid hex hash"));
                },
            }
        } else {
            match (d0, d1) {
                (Some(x), Some(y)) => 16 * x + y,
                _ => {
                    return Err(String::from_str("invalid hex hash"));
                },
            }
        };
        assert(pair_value(b@[2 * i as int], b@[2 * i as int + 1]) == Some(v as nat));
        out[i] = v;
        i = i + 1;
    }
    assert(out@ =~= Seq::new(32, |i: int| pair_value(b@[2 * i], b@[2 * i + 1])->0 as u8));
    Ok(out)
}

/// The lowercase hex digit for `n` (below 16).
pub open spec fn hex_char(n: nat) -> char {
    if n < 10 {
        (n + 48) as char
    } else {
        (n + 87) as char
    }
}

/// Two lowercase hex digits per byte.
pub open spec fn hex_text(b: Seq<u8>) -> Seq<char>
    decreases b.len(),
{
    if b.len() == 0 {
        Seq::empty()
    } else {
        hex_text(b.drop_last()).push(hex_char((b.last() / 16) as nat)).push(hex_char((b.last() % 16) as nat))
    }
}

fn hex_digit(n: u8) -> (c: char)
    requires
        n < 16,
    ensures
        c == hex_char(n as nat),
{
    if n < 10 {
        (n + 48) as char
    } else {
        (n + 87) as char
    }
}

/// A 32-byte hash as 64 lowercase hex digits.
pub fn hash_to_hex(bytes: &[u8; 32]) -> (r: String)
    ensures
        r@ == hex_text(bytes@),
{
    let mut out: Vec<char> = Vec::new();
    let mut i: usize = 0;
    assert(bytes@.take(0) =~= Seq::<u8>::empty());
    while i < 32
        invariant
            i <= 32,
            bytes@.len() == 32,
            out@ == hex_text(bytes@.take(i as int)),
        decreases 32 - i,
    {
        let byte = bytes[i];
        out.push(hex_digit(byte / 16));
        out.push(hex_digit(byte % 16));
        proof {
            let next = bytes@.take(i as int + 1);
            assert(next.drop_last() =~= bytes@.take(i as int));
            assert(next.last() == byte);
        }
        i = i + 1;
    }
    assert(bytes@.take(32) =~= bytes@);
    string_from_chars(out.as_slice())
}

/// The shape of `hex_text(b)`: two hex digits per byte, high nibble first.
proof fn lemma_hex_text_shape(b: Seq<u8>)
    ensures
        hex_text(b).len() == 2 * b.len(),
        forall|i: int|
            0 <= i < b.len() ==> hex_text(b)[2 * i] == hex_char((b[i] / 16) as nat) && hex_text(b)[2 * i + 1]
                == hex_char((b[i] % 16) as nat),
    decreases b.len(),
{
    if b.len() > 0 {
        lemma_hex_text_shape(b.drop_last());
        assert forall|i: int| 0 <= i < b.len() implies hex_text(b)[2 * i] == hex_char((b[i] / 16) as nat)
            && hex_text(b)[2 * i + 1] == hex_char((b[i] % 16) as nat) by {
            if i < b.len() - 1 {
                assert(b.drop_last()[i] == b[i]);
            }
        }
    }
}

/// A hex digit, in either case, is ASCII, not white space, and reads back
/// as its value.
proof fn lemma_hex_char(n: nat)
    requires
        n < 16,
    ensures
        '\0' <= hex_char(n) <= '\u{7f}',
        !is_white_space(hex_char(n)),
        hex_val(hex_char(n) as u8) == Some(n),
        hex_char(n) as u8 != 43,
        '\0' <= ascii_upper(hex_char(n)) <= '\u{7f}',
        !is_white_space(ascii_upper(hex_char(n))),
        hex_val(ascii_upper(hex_char(n)) as u8) == Some(n),
        ascii_upper(hex_char(n)) as u8 != 43,
{
}

/// Leading white space does not change what trimming the start keeps.
proof fn lemma_trim_start_skips(lead: Seq<char>, rest: Seq<char>)
    requires
        forall|i: int| 0 <= i < lead.len() ==> is_white_space(#[trigger] lead[i]),
    ensures
        trim_start_spec(lead + rest) == trim_start_spec(rest),
    decreases lead.len(),
{
    if lead.len() > 0 {
        assert((lead + rest)[0] == lead[0]);
        assert((lead + rest).drop_first() =~= lead.drop_first() + rest);
        lemma_trim_start_skips(lead.drop_first(), rest);
    } else {
        assert(lead + rest =~= rest);
    }
}

/// Trailing white space does not change what trimming the end keeps.
proof fn lemma_trim_end_skips(rest: Seq<char>, trail: Seq<char>)
    requires
        forall|i: int| 0 <= i < trail.len() ==> is_white_space(#[trigger] trail[i]),
    ensures
        trim_end_spec(rest + trail) == trim_end_spec(rest),
    decreases trail.len(),
{
    if trail.len() > 0 {
        assert((rest + trail).last() == trail.last());
        assert((rest + trail).drop_last() =~= rest + trail.drop_last());
        lemma_trim_end_skips(rest, trail.drop_last());
    } else {
        assert(rest + trail =~= rest);
    }
}

/// The hex text of `b`, in lower case or in upper case.
pub open spec fn hex_text_in(b: Seq<u8>, upper: bool) -> Seq<char> {
    if upper {
        hex_text(b).map_values(|c: char| ascii_upper(c))
    } else {
        hex_text(b)
    }
}

/// What `hash_to_hex` prints, `parse_hash_hex` reads back as the same
/// bytes, and the text can be sliced as the parser reads it; this holds as
/// well of the text in upper case (`to_ascii_uppercase`) and of the text
/// with any white space before and after it.
pub proof fn law_hash_hex_round_trip(b: Seq<u8>, upper: bool, lead: Seq<char>, trail: Seq<char>)
    requires
        b.len() == 32,
        forall|i: int| 0 <= i < lead.len() ==> is_white_space(#[trigger] lead[i]),
        forall|i: int| 0 <= i < trail.len() ==> is_white_space(#[trigger] trail[i]),
    ensures
        pairs_sliceable(lead + hex_text_in(b, upper) + trail),
        hash_hex_spec(lead + hex_text_in(b, upper) + trail) == Ok::<Seq<u8>, Seq<char>>(b),
{
    broadcast use vstd::utf8::is_ascii_chars_encode_utf8, vstd::utf8::encode_utf8_valid_utf8,
        vstd::utf8::is_char_boundary_iff_not_is_continuation_byte, vstd::utf8::is_char_boundary_start_end_of_seq;

    let lo = hex_text(b);
    let t = hex_text_in(b, upper);
    lemma_hex_text_shape(b);
    assert(t.len() == 64);
    assert forall|i: int| 0 <= i < 32 implies #[trigger] t[2 * i] == (if upper {
        ascii_upper(hex_char((b[i] / 16) as nat))
    } else {
        hex_char((b[i] / 16) as nat)
    }) && t[2 * i + 1] == (if upper {
        ascii_upper(hex_char((b[i] % 16) as nat))
    } else {
        hex_char((b[i] % 16) as nat)
    }) by {
        assert(lo[2 * i] == hex_char((b[i] / 16) as nat));
        assert(lo[2 * i + 1] == hex_char((b[i] % 16) as nat));
    }
    assert forall|k: int| 0 <= k < t.len() implies '\0' <= #[trigger] t[k] <= '\u{7f}' && !is_white_space(t[k])
        && hex_val(t[k] as u8) is Some && t[k] as u8 != 43 by {
        let i = k / 2;
        assert(0 <= i < 32);
        lemma_hex_char((b[i] / 16) as nat);
        lemma_hex_char((b[i] % 16) as nat);
        if k % 2 == 0 {
            assert(k == 2 * i);
            assert(t[2 * i] == t[k]);
        } else {
            assert(k == 2 * i + 1);
            assert(t[2 * i + 1] == t[k]);
        }
    }
    let s = lead + t + trail;
    assert(s == lead + (t + trail));
    lemma_trim_start_skips(lead, t + trail);
    assert(!is_white_space((t + trail)[0]));
    assert(trim_start_spec(t + trail) == t + trail);
    lemma_trim_end_skips(t, trail);
    assert(!is_white_space(t[t.len() - 1]));
    assert(trim_end_spec(t) == t);
    assert(trim_spec(s) == t);
    assert(vstd::utf8::is_ascii_chars(t));
    let e = encode_utf8(t);
    assert(e.len() == 64);
    assert forall|i: int| 0 <= i < 32 implies #[trigger] pair_value(e[2 * i], e[2 * i + 1]) == Some(b[i] as nat) by {
        lemma_hex_char((b[i] / 16) as nat);
        lemma_hex_char((b[i] % 16) as nat);
        assert(e[2 * i] == t[2 * i] as u8);
        assert(e[2 * i + 1] == t[2 * i + 1] as u8);
    }
    assert(!(exists|i: int| 0 <= i < 32 && #[trigger] pair_value(e[2 * i], e[2 * i + 1]) is None));
    assert(Seq::new(32, |i: int| pair_value(e[2 * i], e[2 * i + 1])->0 as u8) =~= b);
    assert forall|i: int|
        0 <= i < 32 && (forall|j: int| 0 <= j < i ==> #[trigger] pair_value(e[2 * j], e[2 * j + 1]) is Some)
            implies #[trigger] is_char_boundary(e, 2 * i + 2) by {
        if 2 * i + 2 < 64 {
            assert(e[2 * i + 2] == t[2 * i + 2] as u8);
            assert(!is_continuation_byte(e[2 * i + 2]));
        }
    }
}

/// The message for a text that is not a decimal.
pub open spec fn invalid_decimal_message(value: Seq<char>) -> Seq<char> {
    "invalid decimal value: "@ + value
}

/// Parses a decimal field of a proof.
pub fn parse_decimal(value: &str) -> (r: Result<Decimal, String>)
    ensures
        match decimal_parse(value@) {
            Some(d) => r == Ok::<Decimal, String>(d),
            None => r is Err && r->Err_0@ == invalid_decimal_message(value@),
        },
        r is Ok ==> r->Ok_0.wf(),
{
    match parse(value) {
        Some(d) => Ok(d),
        None => {
            proof {
                reveal_strlit("invalid decimal value: ");
            }
            Err(String::from_str("invalid decimal value: ").concat(value))
        },
    }
}

/// A node on the path: its hash and the total balance below it.
#[derive(Debug)]
pub struct PathNode {
    pub hash: [u8; 32],
    pub balance: Decimal,
}

/// One call of the node hash: the parsed sibling hash that went into it and
/// what the call returned.
pub type NodeCall = ([u8; 32], Result<[u8; 32], String>);

/// Walking the path from `node`, where `calls` are the node-hash calls in
/// order: each step parses the sibling hash and balance, stops with `false`
/// on a negative sibling balance, hashes the two children in their order
/// and adds their balances. The result is the root reached, or how the walk
/// ended early.
pub open spec fn walk(steps: Seq<ProofStepPayload>, node: PathNode, calls: Seq<NodeCall>) -> Result<PathNode, Result<bool, Seq<char>>>
    decreases steps.len(),
{
    if steps.len() == 0 {
        Ok(node)
    } else {
        let st = steps[0];
        match hash_hex_spec(st.sibling_hash@) {
            Err(m) => Err(Err(m)),
            Ok(_) => match decimal_parse(st.sibling_balance@) {
                None => Err(Err(invalid_decimal_message(st.sibling_balance@))),
                Some(sb) => if sb.value() < 0 {
                    Err(Ok(false))
                } else if calls.len() == 0 {
                    Err(Err(Seq::empty()))
                } else {
                    match calls[0].1 {
                        Err(e) => Err(Err(e@)),
                        Ok(h) => {
                            let total = if st.sibling_is_left {
                                decimal_sum(sb, node.balance)
                            } else {
                                decimal_sum(node.balance, sb)
                            };
                            match total {
                                None => Err(Err("balance overflow while recomputing path"@)),
                                Some(b2) => walk(steps.drop_first(), PathNode { hash: h, balance: b2 }, calls.drop_first()),
                            }
                        },
                    }
                },
            },
        }
    }
}

/// `calls` are exactly the node-hash calls that the walk from `node` makes,
/// each with the arguments the walk gives it and a result that the closure
/// can return: the children's hashes and balances, left child first.
pub open spec fn walk_calls<N: Fn(&[u8; 32], &[u8; 32], &Decimal, &Decimal) -> Result<[u8; 32], String>>(
    node_hash: N,
    steps: Seq<ProofStepPayload>,
    node: PathNode,
    calls: Seq<NodeCall>,
) -> bool
    decreases steps.len(),
{
    if steps.len() == 0 {
        calls.len() == 0
    } else {
        let st = steps[0];
        match hash_hex_spec(st.sibling_hash@) {
            Err(_) => calls.len() == 0,
            Ok(sh) => match decimal_parse(st.sibling_balance@) {
                None => calls.len() == 0,
                Some(sb) => if sb.value() < 0 {
                    calls.len() == 0
                } else {
                    &&& calls.len() > 0
                    &&& calls[0].0@ == sh
                    &&& if st.sibling_is_left {
                        call_ensures(node_hash, (&calls[0].0, &node.hash, &sb, &node.balance), calls[0].1)
                    } else {
                        call_ensures(node_hash, (&node.hash, &calls[0].0, &node.balance, &sb), calls[0].1)
                    }
                    &&& match calls[0].1 {
                        Err(_) => calls.len() == 1,
                        Ok(h) => {
                            let total = if st.sibling_is_left {
                                decimal_sum(sb, node.balance)
                            } else {
                                decimal_sum(node.balance, sb)
                            };
                            match total {
                                None => calls.len() == 1,
                                Some(b2) => walk_calls(
                                    node_hash,
                                    steps.drop_first(),
                                    PathNode { hash: h, balance: b2 },
                                    calls.drop_first(),
                                ),
                            }
                        },
                    }
                },
            },
        }
    }
}

/// The three balances of a proof, parsed in order, or the first that is
/// not a decimal.
pub open spec fn payload_balances(p: ProofPayload, i: PublicInputsPayload) -> Result<(Decimal, Decimal, Decimal), Seq<char>> {
    match decimal_parse(p.leaf_balance@) {
        None => Err(invalid_decimal_message(p.leaf_balance@)),
        Some(leaf) => match decimal_parse(p.root_balance@) {
            None => Err(invalid_decimal_message(p.root_balance@)),
            Some(root) => match decimal_parse(i.expected_root_balance@) {
                None => Err(invalid_decimal_message(i.expected_root_balance@)),
                Some(expected) => Ok((leaf, root, expected)),
            },
        },
    }
}

/// The proof's user is not the one expected.
pub open spec fn user_mismatch(p: ProofPayload, i: PublicInputsPayload) -> bool {
    i.expected_user_id is Some && i.expected_user_id->0 != p.user_id
}

/// The verdict on a proof, given what the leaf hash returned and the
/// node-hash calls of the walk: `Ok(true)` when the recomputed root hash
/// equals both the declared and the expected one and the recomputed total
/// equals both declared totals; `Ok(false)` for a user mismatch, a negative
/// sibling balance or a mismatch at the root; `Err` with the first field
/// that does not parse or the first failed hash or addition.
pub open spec fn payload_outcome(
    p: ProofPayload,
    i: PublicInputsPayload,
    leaf: Result<[u8; 32], String>,
    calls: Seq<NodeCall>,
) -> Result<bool, Seq<char>> {
    if user_mismatch(p, i) {
        Ok(false)
    } else {
        match payload_balances(p, i) {
            Err(m) => Err(m),
            Ok((leaf_balance, root_balance, expected_balance)) => match leaf {
                Err(e) => Err(e@),
                Ok(h) => match walk(p.merkle_path@, PathNode { hash: h, balance: leaf_balance }, calls) {
                    Err(stop) => stop,
                    Ok(root) => match hash_hex_spec(p.root_hash@) {
                        Err(m) => Err(m),
                        Ok(declared) => match hash_hex_spec(i.expected_root_hash@) {
                            Err(m) => Err(m),
                            Ok(expected) => Ok(
                                root.hash@ == declared && root.hash@ == expected && root.balance.same_as(
                                    root_balance,
                                ) && root.balance.same_as(expected_balance),
                            ),
                        },
                    },
                },
            },
        }
    }
}

/// `leaf` and `calls` are what the two hash closures returned when checking
/// the proof: the leaf hash of the user and leaf balance (when reached),
/// then the node hashes along the path.
pub open spec fn payload_calls<
    L: Fn(u64, &Decimal) -> Result<[u8; 32], String>,
    N: Fn(&[u8; 32], &[u8; 32], &Decimal, &Decimal) -> Result<[u8; 32], String>,
>(
    leaf_hash: L,
    node_hash: N,
    p: ProofPayload,
    i: PublicInputsPayload,
    leaf: Result<[u8; 32], String>,
    calls: Seq<NodeCall>,
) -> bool {
    if user_mismatch(p, i) || payload_balances(p, i) is Err {
        calls.len() == 0
    } else {
        let leaf_balance = payload_balances(p, i)->Ok_0.0;
        &&& call_ensures(leaf_hash, (p.user_id, &leaf_balance), leaf)
        &&& match leaf {
            Err(_) => calls.len() == 0,
            Ok(h) => walk_calls(node_hash, p.merkle_path@, PathNode { hash: h, balance: leaf_balance }, calls),
        }
    }
}

/// A walk that stops early never stops with acceptance.
proof fn lemma_walk_stop_rejects(steps: Seq<ProofStepPayload>, node: PathNode, calls: Seq<NodeCall>)
    ensures
        walk(steps, node, calls) is Err ==> walk(steps, node, calls)->Err_0 != Ok::<bool, Seq<char>>(true),
    decreases steps.len(),
{
    if steps.len() > 0 && calls.len() > 0 {
        let st = steps[0];
        if let Ok(_) = hash_hex_spec(st.sibling_hash@) {
            if let Some(sb) = decimal_parse(st.sibling_balance@) {
                if let Ok(h) = calls[0].1 {
                    let total = if st.sibling_is_left {
                        decimal_sum(sb, node.balance)
                    } else {
                        decimal_sum(node.balance, sb)
                    };
                    if let Some(b2) = total {
                        lemma_walk_stop_rejects(steps.drop_first(), PathNode { hash: h, balance: b2 }, calls.drop_first());
                    }
                }
            }
        }
    }
}

/// Decimals that are the same have the same value.
proof fn lemma_same_value(a: Decimal, b: Decimal)
    requires
        a.same_as(b),
    ensures
        a.value() == b.value(),
{
    if !(a.wf() && b.wf()) {
        assert(a == b);
    }
}

/// A proof is accepted only when it is for the expected user (if one is
/// expected), its declared root hash is the expected one, and its declared
/// total equals the expected total: a tampered root or total never passes,
/// whatever the hash functions return.
pub proof fn law_accepted_proof_matches_inputs(
    p: ProofPayload,
    i: PublicInputsPayload,
    leaf: Result<[u8; 32], String>,
    calls: Seq<NodeCall>,
)
    ensures
        payload_outcome(p, i, leaf, calls) == Ok::<bool, Seq<char>>(true) ==> {
            &&& (i.expected_user_id is Some ==> i.expected_user_id->0 == p.user_id)
            &&& hash_hex_spec(p.root_hash@) is Ok
            &&& hash_hex_spec(p.root_hash@) == hash_hex_spec(i.expected_root_hash@)
            &&& decimal_parse(p.root_balance@) is Some
            &&& decimal_parse(i.expected_root_balance@) is Some
            &&& decimal_parse(p.root_balance@)->0.value() == decimal_parse(i.expected_root_balance@)->0.value()
        },
{
    if payload_outcome(p, i, leaf, calls) == Ok::<bool, Seq<char>>(true) {
        let (leaf_balance, root_balance, expected_balance) = payload_balances(p, i)->Ok_0;
        let h = leaf->Ok_0;
        lemma_walk_stop_rejects(p.merkle_path@, PathNode { hash: h, balance: leaf_balance }, calls);
        let root = walk(p.merkle_path@, PathNode { hash: h, balance: leaf_balance }, calls)->Ok_0;
        assert(root.balance.same_as(root_balance));
        assert(root.balance.same_as(expected_balance));
        lemma_same_value(root.balance, root_balance);
        lemma_same_value(root.balance, expected_balance);
    }
}

/// The root that an honest path from a leaf of hash `h` and balance `b`
/// leads to when every parent is hashed by `hash` from its left child's
/// hash, its right child's hash, the left child's balance and the right
/// child's balance, and its balance is the left balance plus the right one:
/// `None` when a sibling does not parse, has a negative balance, or a sum
/// overflows.
pub open spec fn tree_root(
    hash: spec_fn(Seq<u8>, Seq<u8>, Decimal, Decimal) -> Seq<u8>,
    steps: Seq<ProofStepPayload>,
    h: Seq<u8>,
    b: Decimal,
) -> Option<(Seq<u8>, Decimal)>
    decreases steps.len(),
{
    if steps.len() == 0 {
        Some((h, b))
    } else {
        let st = steps[0];
        match (hash_hex_spec(st.sibling_hash@), decimal_parse(st.sibling_balance@)) {
            (Ok(sh), Some(sb)) => if sb.value() < 0 {
                None
            } else {
                let (left, right, left_balance, right_balance) = if st.sibling_is_left {
                    (sh, h, sb, b)
                } else {
                    (h, sh, b, sb)
                };
                match decimal_sum(left_balance, right_balance) {
                    None => None,
                    Some(total) => tree_root(
                        hash,
                        steps.drop_first(),
                        hash(left, right, left_balance, right_balance),
                        total,
                    ),
                }
            },
            _ => None,
        }
    }
}

/// Walking an honest path with a node hash that computes `hash` reaches the
/// root of the tree.
proof fn lemma_walk_reaches_tree_root<N: Fn(&[u8; 32], &[u8; 32], &Decimal, &Decimal) -> Result<[u8; 32], String>>(
    node_hash: N,
    hash: spec_fn(Seq<u8>, Seq<u8>, Decimal, Decimal) -> Seq<u8>,
    steps: Seq<ProofStepPayload>,
    node: PathNode,
    calls: Seq<NodeCall>,
)
    requires
        forall|a: &[u8; 32], b: &[u8; 32], c: &Decimal, d: &Decimal, r: Result<[u8; 32], String>|
            call_ensures(node_hash, (a, b, c, d), r) ==> r is Ok && r->Ok_0@ == hash(a@, b@, *c, *d),
        walk_calls(node_hash, steps, node, calls),
        tree_root(hash, steps, node.hash@, node.balance) is Some,
    ensures
        walk(steps, node, calls) is Ok,
        walk(steps, node, calls)->Ok_0.hash@ == (tree_root(hash, steps, node.hash@, node.balance)->0).0,
        walk(steps, node, calls)->Ok_0.balance == (tree_root(hash, steps, node.hash@, node.balance)->0).1,
    decreases steps.len(),
{
    if steps.len() > 0 {
        let st = steps[0];
        let sb = decimal_parse(st.sibling_balance@)->0;
        let h = calls[0].1->Ok_0;
        let total = if st.sibling_is_left {
            decimal_sum(sb, node.balance)
        } else {
            decimal_sum(node.balance, sb)
        };
        lemma_walk_reaches_tree_root(
            node_hash,
            hash,
            steps.drop_first(),
            PathNode { hash: h, balance: total->0 },
            calls.drop_first(),
        );
    }
}

/// An honest membership proof is accepted. When the leaf hash computes
/// `leaf_of` and the node hash computes `hash` (parents hashed from their
/// left child first: left hash, right hash, left balance, right balance),
/// a proof whose path leads from the user's leaf to a root whose hash is
/// the declared and expected one, and whose total equals the declared and
/// expected totals, is judged `Ok(true)`, whichever side each sibling is on.
pub proof fn law_honest_proof_accepted<
    L: Fn(u64, &Decimal) -> Result<[u8; 32], String>,
    N: Fn(&[u8; 32], &[u8; 32], &Decimal, &Decimal) -> Result<[u8; 32], String>,
>(
    leaf_hash: L,
    node_hash: N,
    leaf_of: spec_fn(u64, Decimal) -> Seq<u8>,
    hash: spec_fn(Seq<u8>, Seq<u8>, Decimal, Decimal) -> Seq<u8>,
    p: ProofPayload,
    i: PublicInputsPayload,
    leaf: Result<[u8; 32], String>,
    calls: Seq<NodeCall>,
)
    requires
        forall|u: u64, b: &Decimal, r: Result<[u8; 32], String>|
            call_ensures(leaf_hash, (u, b), r) ==> r is Ok && r->Ok_0@ == leaf_of(u, *b),
        forall|a: &[u8; 32], b: &[u8; 32], c: &Decimal, d: &Decimal, r: Result<[u8; 32], String>|
            call_ensures(node_hash, (a, b, c, d), r) ==> r is Ok && r->Ok_0@ == hash(a@, b@, *c, *d),
        payload_calls(leaf_hash, node_hash, p, i, leaf, calls),
        i.expected_user_id is Some ==> i.expected_user_id->0 == p.user_id,
        payload_balances(p, i) is Ok,
        ({
            let (leaf_balance, root_balance, expected_balance) = payload_balances(p, i)->Ok_0;
            match tree_root(hash, p.merkle_path@, leaf_of(p.user_id, leaf_balance), leaf_balance) {
                Some((root_hash, total)) => {
                    &&& hash_hex_spec(p.root_hash@) == Ok::<Seq<u8>, Seq<char>>(root_hash)
                    &&& hash_hex_spec(i.expected_root_hash@) == Ok::<Seq<u8>, Seq<char>>(root_hash)
                    &&& total.same_as(root_balance)
                    &&& total.same_as(expected_balance)
                },
                None => false,
            }
        }),
    ensures
        payload_outcome(p, i, leaf, calls) == Ok::<bool, Seq<char>>(true),
{
    let leaf_balance = payload_balances(p, i)->Ok_0.0;
    let h = leaf->Ok_0;
    lemma_walk_reaches_tree_root(node_hash, hash, p.merkle_path@, PathNode { hash: h, balance: leaf_balance }, calls);
}

/// Every hash text of the proof can be sliced as the parser reads it.
pub open spec fn payload_sliceable(p: ProofPayload, i: PublicInputsPayload) -> bool {
    &&& pairs_sliceable(p.root_hash@)
    &&& pairs_sliceable(i.expected_root_hash@)
    &&& forall|k: int| 0 <= k < p.merkle_path@.len() ==> pairs_sliceable((#[trigger] p.merkle_path@[k]).sibling_hash@)
}

/// Whether two hashes are the same bytes.
fn same_hash(a: &[u8; 32], b: &[u8; 32]) -> (r: bool)
    ensures
        r == (a@ == b@),
{
    let mut i: usize = 0;
    while i < 32
        invariant
            i <= 32,
            a@.len() == 32,
            b@.len() == 32,
            forall|j: int| 0 <= j < i ==> a@[j] == b@[j],
        decreases 32 - i,
    {
        if a[i] != b[i] {
            return false;
        }
        i = i + 1;
    }
    assert(a@ =~= b@);
    true
}

/// Checks a membership proof against the expected root: recomputes the
/// path from the leaf (hashed by `leaf_hash`) up to the root (each parent
/// hashed by `node_hash` from its children, left first) and compares the
/// root hash and total balance.
pub fn verify_proof_payload<L, N>(
    proof: &ProofPayload,
    public_inputs: &PublicInputsPayload,
    leaf_hash: L,
    node_hash: N,
) -> (r: Result<bool, String>) where
    L: Fn(u64, &Decimal) -> Result<[u8; 32], String>,
    N: Fn(&[u8; 32], &[u8; 32], &Decimal, &Decimal) -> Result<[u8; 32], String>,

    requires
        payload_sliceable(*proof, *public_inputs),
        forall|u: u64, b: &Decimal| call_requires(leaf_hash, (u, b)),
        forall|a: &[u8; 32], b: &[u8; 32], c: &Decimal, d: &Decimal| call_requires(node_hash, (a, b, c, d)),
    ensures
        exists|leaf: Result<[u8; 32], String>, calls: Seq<NodeCall>|
            #[trigger] payload_calls(leaf_hash, node_hash, *proof, *public_inputs, leaf, calls) && match r {
                Ok(v) => payload_outcome(*proof, *public_inputs, leaf, calls) == Ok::<bool, Seq<char>>(v),
                Err(e) => payload_outcome(*proof, *public_inputs, leaf, calls) == Err::<bool, Seq<char>>(e@),
            },
{
    let ghost p = *proof;
    let ghost inp = *public_inputs;
    let ghost none: Seq<NodeCall> = Seq::empty();
    let ghost dummy: Result<[u8; 32], String> = vstd::pervasive::arbitrary();
    if let Some(expected_user_id) = public_inputs.expected_user_id {
        if expected_user_id != proof.user_id {
            assert(payload_calls(leaf_hash, node_hash, p, inp, dummy, none));
            return Ok(false);
        }
    }
    let leaf_balance = match parse_decimal(proof.leaf_balance.as_str()) {
        Ok(d) => d,
        Err(e) => {
            assert(payload_calls(leaf_hash, node_hash, p, inp, dummy, none));
            return Err(e);
        },
    };
    let declared_root_balance = match parse_decimal(proof.root_balance.as_str()) {
        Ok(d) => d,
        Err(e) => {
            assert(payload_calls(leaf_hash, node_hash, p, inp, dummy, none));
            return Err(e);
        },
    };
    let expected_root_balance = match parse_decimal(public_inputs.expected_root_balance.as_str()) {
        Ok(d) => d,
        Err(e) => {
            assert(payload_calls(leaf_hash, node_hash, p, inp, dummy, none));
            return Err(e);
        },
    };
    let leaf = leaf_hash(proof.user_id, &leaf_balance);
    let ghost leaf0 = leaf;
    let mut current_hash = match leaf {
        Ok(h) => h,
        Err(e) => {
            assert(payload_calls(leaf_hash, node_hash, p, inp, leaf0, none));
            return Err(e);
        },
    };
    let mut current_balance = leaf_balance;
    let ghost start = PathNode { hash: current_hash, balance: current_balance };
    let ghost mut acc: Seq<NodeCall> = Seq::empty();
    let ghost steps = proof.merkle_path@;
    let mut k: usize = 0;
    proof {
        assert(steps.skip(0) =~= steps);
        assert forall|x: Seq<NodeCall>|
            #[trigger] walk(steps, start, acc + x) == walk(steps.skip(0), start, x) && walk_calls(
                node_hash,
                steps,
                start,
                acc + x,
            ) == walk_calls(node_hash, steps.skip(0), start, x) by {
            assert(acc + x =~= x);
        }
    }
    while k < proof.merkle_path.len()
        invariant
            k <= steps.len(),
            steps == proof.merkle_path@,
            none == Seq::<NodeCall>::empty(),
            p == *proof,
            inp == *public_inputs,
            payload_sliceable(p, inp),
            !user_mismatch(p, inp),
            payload_balances(p, inp) == Ok::<(Decimal, Decimal, Decimal), Seq<char>>(
                (leaf_balance, declared_root_balance, expected_root_balance),
            ),
            leaf0 == Ok::<[u8; 32], String>(start.hash),
            start.balance == leaf_balance,
            call_ensures(leaf_hash, (p.user_id, &leaf_balance), leaf0),
            current_balance.wf(),
            declared_root_balance.wf(),
            expected_root_balance.wf(),
            forall|a: &[u8; 32], b: &[u8; 32], c: &Decimal, d: &Decimal| call_requires(node_hash, (a, b, c, d)),
            forall|x: Seq<NodeCall>|
                #[trigger] walk(steps, start, acc + x) == walk(
                    steps.skip(k as int),
                    PathNode { hash: current_hash, balance: current_balance },
                    x,
                ) && walk_calls(node_hash, steps, start, acc + x) == walk_calls(
                    node_hash,
                    steps.skip(k as int),
                    PathNode { hash: current_hash, balance: current_balance },
                    x,
                ),
        decreases steps.len() - k,
    {
        let step = &proof.merkle_path[k];
        let ghost cur = PathNode { hash: current_hash, balance: current_balance };
        let ghost rest = steps.skip(k as int);
        assert(rest[0] == steps[k as int]);
        assert(pairs_sliceable(steps[k as int].sibling_hash@));
        let sibling_hash = match parse_hash_hex(step.sibling_hash.as_str()) {
            Ok(h) => h,
            Err(e) => {
                proof {
                    assert(acc + none =~= acc);
                    assert(walk(steps, start, acc + none) == walk(rest, cur, none));
                    assert(payload_calls(leaf_hash, node_hash, p, inp, leaf0, acc + none));
                }
                return Err(e);
            },
        };
        let sibling_balance = match parse_decimal(step.sibling_balance.as_str()) {
            Ok(d) => d,
            Err(e) => {
                proof {
                    assert(acc + none =~= acc);
                    assert(walk(steps, start, acc + none) == walk(rest, cur, none));
                    assert(payload_calls(leaf_hash, node_hash, p, inp, leaf0, acc + none));
                }
                return Err(e);
            },
        };
        if sibling_balance.is_sign_negative() {
            proof {
                assert(acc + none =~= acc);
                assert(walk(steps, start, acc + none) == walk(rest, cur, none));
                assert(payload_calls(leaf_hash, node_hash, p, inp, leaf0, acc + none));
            }
            return Ok(false);
        }
        let out = if step.sibling_is_left {
            node_hash(&sibling_hash, &current_hash, &sibling_balance, &current_balance)
        } else {
            node_hash(&current_hash, &sibling_hash, &current_balance, &sibling_balance)
        };
        let ghost call: NodeCall = (sibling_hash, out);
        let ghost one = seq![call];
        proof {
            assert(one[0] == call);
            assert(one.drop_first() =~= Seq::<NodeCall>::empty());
        }
        let next_hash = match out {
            Ok(h) => h,
            Err(e) => {
                proof {
                    assert(walk(steps, start, acc + one) == walk(rest, cur, one));
                    assert(walk_calls(node_hash, rest, cur, one));
                    assert(payload_calls(leaf_hash, node_hash, p, inp, leaf0, acc + one));
                }
                return Err(e);
            },
        };
        let total = if step.sibling_is_left {
            checked_add(&sibling_balance, &current_balance)
        } else {
            checked_add(&current_balance, &sibling_balance)
        };
        let next_balance = match total {
            Some(b) => b,
            None => {
                proof {
                    assert(walk(steps, start, acc + one) == walk(rest, cur, one));
                    assert(walk_calls(node_hash, rest, cur, one));
                    assert(payload_calls(leaf_hash, node_hash, p, inp, leaf0, acc + one));
                }
                return Err(String::from_str("balance overflow while recomputing path"));
            },
        };
        proof {
            let next = PathNode { hash: next_hash, balance: next_balance };
            assert(rest.drop_first() =~= steps.skip(k as int + 1));
            assert forall|x: Seq<NodeCall>|
                #[trigger] walk(steps, start, acc.push(call) + x) == walk(steps.skip(k as int + 1), next, x)
                    && walk_calls(node_hash, steps, start, acc.push(call) + x) == walk_calls(
                    node_hash,
                    steps.skip(k as int + 1),
                    next,
                    x,
                ) by {
                let y = one + x;
                assert(acc + y =~= acc.push(call) + x);
                assert(y[0] == call);
                assert(y.drop_first() =~= x);
                assert(walk(steps, start, acc + y) == walk(rest, cur, y));
            }
            acc = acc.push(call);
        }
        current_hash = next_hash;
        current_balance = next_balance;
        k = k + 1;
    }
    let ghost root = PathNode { hash: current_hash, balance: current_balance };
    proof {
        assert(steps.skip(k as int) =~= Seq::<ProofStepPayload>::empty());
        assert(acc + none =~= acc);
        assert(walk(steps, start, acc + none) == walk(steps.skip(k as int), root, none));
        assert(walk_calls(node_hash, steps, start, acc + none) == walk_calls(
            node_hash,
            steps.skip(k as int),
            root,
            none,
        ));
        assert(payload_calls(leaf_hash, node_hash, p, inp, leaf0, acc));
    }
    let declared_root_hash = match parse_hash_hex(proof.root_hash.as_str()) {
        Ok(h) => h,
        Err(e) => {
            return Err(e);
        },
    };
    let expected_root_hash = match parse_hash_hex(public_inputs.expected_root_hash.as_str()) {
        Ok(h) => h,
        Err(e) => {
            return Err(e);
        },
    };
    let verdict = same_hash(&current_hash, &declared_root_hash) && same_hash(&current_hash, &expected_root_hash)
        && current_balance == declared_root_balance && current_balance == expected_root_balance;
    Ok(verdict)
}

} // verus!
