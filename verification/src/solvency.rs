//! Logic of the solvency endpoints: which asset, which balances go into the
//! Merkle sum tree, where the user's leaf is, the cold-wallet total the
//! liabilities are held against, and the balance scaling of the SNARK input.

use vstd::prelude::*;
use vstd::string::StringExecFns;

use crate::api_error::{ApiError, bad_request, fails_with, internal_error, not_found};
use crate::decimal::{Comparison, Decimal, compare, decimal_parse, decimal_rescaled, parse};
use crate::text::{ascii_upper, to_ascii_uppercase, trim, trim_spec};

verus! {

/// Query of the proof and solvency endpoints.
#[derive(Debug)]
pub struct ZkpProofQuery {
    pub asset: Option<String>,
    pub cold_wallet_assets: Option<String>,
}

/// Answer of the membership-proof endpoint.
#[derive(Debug)]
pub struct ZkpProofResponse {
    pub user_id: String,
    pub asset: String,
    pub snapshot_size: usize,
    pub leaf_index: usize,
    pub leaf_balance: String,
    pub root_hash: String,
    pub public_inputs: ZkpPublicInputsDto,
    pub snark: ZkpSnarkDto,
    pub solvency: Option<ZkpSolvencyDto>,
}

/// Public inputs of a membership proof.
#[derive(Debug)]
pub struct ZkpPublicInputsDto {
    pub expected_root_hash: String,
    pub expected_user_id: String,
}

/// A SNARK as sent to the client.
#[derive(Debug)]
pub struct ZkpSnarkDto {
    pub scheme: String,
    pub proof: String,
    pub public_inputs: String,
    pub verified: bool,
}

/// The solvency verdict attached to a proof.
#[derive(Debug)]
pub struct ZkpSolvencyDto {
    pub liabilities_leq_assets: bool,
    pub verified_at: String,
}

/// Answer of the exchange-wide solvency endpoint.
#[derive(Debug)]
pub struct ZkpSolvencyResponse {
    pub asset: String,
    pub snapshot_size: usize,
    pub root_hash: String,
    pub liabilities_leq_assets: bool,
    pub verified_at: String,
}

/// One user's total balance of an asset, a leaf of the sum tree.
#[derive(Debug)]
pub struct BalanceSnapshot {
    pub user_id: u64,
    pub balance: Decimal,
}

/// The input of a membership SNARK.
#[derive(Debug)]
pub struct MembershipProofInput {
    pub user_id: u64,
    pub leaf_balance: Decimal,
}

/// A membership SNARK, encoded for transport.
#[derive(Debug)]
pub struct SnarkProofPackage {
    pub scheme: String,
    pub proof_b64: String,
    pub public_inputs_b64: String,
    pub verified: bool,
}

/// Why a SNARK could not be made.
#[derive(Debug)]
pub enum SnarkError {
    NegativeBalance,
    DecimalOverflow,
    Groth16(String),
    Serialization(String),
}

impl SnarkError {
    /// The error's message.
    pub fn message(&self) -> (r: String)
        ensures
            r@ == match self {
                SnarkError::NegativeBalance => "balance must be non-negative"@,
                SnarkError::DecimalOverflow => "balance conversion overflow"@,
                SnarkError::Groth16(e) => "groth16 error: "@ + e@,
                SnarkError::Serialization(e) => "serialization error: "@ + e@,
            },
    {
        match self {
            SnarkError::NegativeBalance => String::from_str("balance must be non-negative"),
            SnarkError::DecimalOverflow => String::from_str("balance conversion overflow"),
            SnarkError::Groth16(e) => {
                proof {
                    reveal_strlit("groth16 error: ");
                }
                String::from_str("groth16 error: ").concat(e.as_str())
            },
            SnarkError::Serialization(e) => {
                proof {
                    reveal_strlit("serialization error: ");
                }
                String::from_str("serialization error: ").concat(e.as_str())
            },
        }
    }
}

/// Decimal places of a balance inside the circuit.
pub const BALANCE_SCALE: u32 = 8;

/// The integer that a balance becomes in the circuit: refused when
/// negative; otherwise the mantissa of the balance rescaled to 8 places.
pub fn scaled_balance(value: Decimal) -> (r: Result<u128, SnarkError>)
    requires
        value.wf(),
    ensures
        value.mantissa < 0 ==> r is Err && r->Err_0 is NegativeBalance,
        value.mantissa >= 0 && decimal_rescaled(value, BALANCE_SCALE).mantissa < 0 ==> r is Err
            && r->Err_0 is NegativeBalance,
        value.mantissa >= 0 && decimal_rescaled(value, BALANCE_SCALE).mantissa >= 0 ==> r == Ok::<
            u128,
            SnarkError,
        >(decimal_rescaled(value, BALANCE_SCALE).mantissa as u128),
{
    if value.is_sign_negative() {
        return Err(SnarkError::NegativeBalance);
    }
    let scaled = value.rescaled(BALANCE_SCALE);
    let mantissa = scaled.mantissa;
    if mantissa < 0 {
        return Err(SnarkError::NegativeBalance);
    }
    Ok(mantissa as u128)
}

/// The asset of a solvency query: the given one trimmed, USDT when none or
/// blank, upper-cased.
pub open spec fn query_asset(asset: Option<Seq<char>>) -> Seq<char> {
    let a = match asset {
        Some(v) => if trim_spec(v).len() > 0 {
            trim_spec(v)
        } else {
            "USDT"@
        },
        None => "USDT"@,
    };
    a.map_values(|c: char| ascii_upper(c))
}

/// The asset of a solvency query.
pub fn proof_asset(asset: Option<&str>) -> (r: String)
    ensures
        r@ == query_asset(match asset {
            Some(v) => Some(v@),
            None => None,
        }),
{
    let chosen = match asset {
        Some(v) => {
            let t = trim(v);
            if t.is_empty() {
                "USDT"
            } else {
                t
            }
        },
        None => "USDT",
    };
    to_ascii_uppercase(chosen)
}

/// The leaves of the sum tree from the balance rows (user id, available +
/// locked) in order, and the position of `user`'s leaf (the last row of
/// that user) when a user is given. Refused when there are no rows, or a
/// row has a non-positive user id.
pub fn solvency_snapshots(rows: &[(i64, Decimal)], user: Option<u64>) -> (r: Result<(Vec<BalanceSnapshot>, Option<usize>), ApiError>)
    ensures
        rows@.len() == 0 ==> fails_with(r, 404, "no balances found for selected asset"@),
        rows@.len() > 0 && (exists|i: int| 0 <= i < rows@.len() && (#[trigger] rows@[i]).0 <= 0) ==> fails_with(
            r,
            500,
            "invalid user_id in balances snapshot"@,
        ),
        rows@.len() > 0 && (forall|i: int| 0 <= i < rows@.len() ==> (#[trigger] rows@[i]).0 > 0) ==> r is Ok && ({
            let (snaps, leaf) = r->Ok_0;
            &&& snaps@.len() == rows@.len()
            &&& forall|i: int|
                0 <= i < rows@.len() ==> (#[trigger] snaps@[i]).user_id == rows@[i].0 && snaps@[i].balance
                    == rows@[i].1
            &&& match user {
                None => leaf is None,
                Some(u) => match leaf {
                    None => forall|i: int| 0 <= i < rows@.len() ==> (#[trigger] rows@[i]).0 != u,
                    Some(k) => k < rows@.len() && rows@[k as int].0 == u && forall|i: int|
                        k < i < rows@.len() ==> (#[trigger] rows@[i]).0 != u,
                },
            }
        }),
{
    if rows.len() == 0 {
        return Err(not_found("no balances found for selected asset"));
    }
    let mut snaps: Vec<BalanceSnapshot> = Vec::new();
    let mut leaf: Option<usize> = None;
    let mut i: usize = 0;
    while i < rows.len()
        invariant
            i <= rows@.len(),
            rows@.len() > 0,
            forall|j: int| 0 <= j < i ==> (#[trigger] rows@[j]).0 > 0,
            snaps@.len() == i,
            forall|j: int|
                0 <= j < i ==> (#[trigger] snaps@[j]).user_id == rows@[j].0 && snaps@[j].balance == rows@[j].1,
            match user {
                None => leaf is None,
                Some(u) => match leaf {
                    None => forall|j: int| 0 <= j < i ==> (#[trigger] rows@[j]).0 != u,
                    Some(k) => k < i && rows@[k as int].0 == u && forall|j: int| k < j < i ==> (#[trigger] rows@[j]).0 != u,
                },
            },
        decreases rows@.len() - i,
    {
        let (uid, balance) = rows[i];
        if uid <= 0 {
            return Err(internal_error("invalid user_id in balances snapshot"));
        }
        let snapshot_user = uid as u64;
        if let Some(u) = user {
            if snapshot_user == u {
                leaf = Some(i);
            }
        }
        snaps.push(BalanceSnapshot { user_id: snapshot_user, balance });
        i = i + 1;
    }
    Ok((snaps, leaf))
}

/// The user's leaf, which must exist.
pub fn user_leaf(leaf: Option<usize>) -> (r: Result<usize, ApiError>)
    ensures
        leaf is None ==> fails_with(r, 404, "user balance not found for selected asset"@),
        leaf is Some ==> r == Ok::<usize, ApiError>(leaf->0),
{
    match leaf {
        Some(k) => Ok(k),
        None => Err(not_found("user balance not found for selected asset")),
    }
}

/// The name of the variable that holds the cold-wallet total of `asset`.
pub fn cold_wallet_env_key(asset: &str) -> (r: String)
    ensures
        r@ == "COLD_WALLET_ASSETS_"@ + asset@,
{
    String::from_str("COLD_WALLET_ASSETS_").concat(asset)
}

/// A cold-wallet total: a decimal that is not negative.
pub fn parse_cold_wallet_value(value: &str, err_prefix: &str) -> (r: Result<Decimal, ApiError>)
    ensures
        decimal_parse(value@) is None ==> fails_with(r, 400, err_prefix@ + ": "@ + value@),
        decimal_parse(value@) is Some && decimal_parse(value@)->0.mantissa < 0 ==> fails_with(
            r,
            400,
            err_prefix@ + ": value must be non-negative"@,
        ),
        decimal_parse(value@) is Some && decimal_parse(value@)->0.mantissa >= 0 ==> r == Ok::<Decimal, ApiError>(
            decimal_parse(value@)->0,
        ),
{
    let d = match parse(value) {
        Some(d) => d,
        None => {
            let msg = String::from_str(err_prefix).concat(": ").concat(value);
            proof {
                reveal_strlit(": ");
            }
            return Err(ApiError { status: 400, message: msg });
        },
    };
    if d.is_sign_negative() {
        let msg = String::from_str(err_prefix).concat(": value must be non-negative");
        proof {
            reveal_strlit(": value must be non-negative");
        }
        return Err(ApiError { status: 400, message: msg });
    }
    Ok(d)
}

/// A query value given and not blank, trimmed.
pub open spec fn given(q: Option<&str>) -> Option<Seq<char>> {
    match q {
        Some(v) => if trim_spec(v@).len() > 0 {
            Some(trim_spec(v@))
        } else {
            None
        },
        None => None,
    }
}

fn given_value(q: Option<&str>) -> (r: Option<&str>)
    ensures
        r is Some <==> given(q) is Some,
        r is Some ==> r->0@ == given(q)->0,
{
    match q {
        Some(v) => {
            let t = trim(v);
            if t.is_empty() {
                None
            } else {
                Some(t)
            }
        },
        None => None,
    }
}

/// The outcome of parsing a cold-wallet total `value` with `prefix`.
pub open spec fn cold_value(value: Seq<char>, prefix: Seq<char>) -> Result<Decimal, (u16, Seq<char>)> {
    match decimal_parse(value) {
        None => Err((400, prefix + ": "@ + value)),
        Some(d) => if d.mantissa < 0 {
            Err((400, prefix + ": value must be non-negative"@))
        } else {
            Ok(d)
        },
    }
}

/// `r` carries what `expected` says.
pub open spec fn answers<T>(r: Result<T, ApiError>, expected: Result<T, (u16, Seq<char>)>) -> bool {
    match expected {
        Ok(v) => r == Ok::<T, ApiError>(v),
        Err((status, message)) => fails_with(r, status, message),
    }
}

/// The cold-wallet total, if known: from the query when given, else from
/// the environment value `env_value` of `COLD_WALLET_ASSETS_<asset>`.
pub fn resolve_cold_wallet_assets_optional(asset: &str, query_value: Option<&str>, env_value: Option<&str>) -> (r: Result<Option<Decimal>, ApiError>)
    ensures
        given(query_value) is Some ==> match cold_value(given(query_value)->0, "invalid query param cold_wallet_assets"@) {
            Ok(d) => r == Ok::<Option<Decimal>, ApiError>(Some(d)),
            Err((s, m)) => fails_with(r, s, m),
        },
        given(query_value) is None && env_value is Some ==> match cold_value(
            trim_spec(env_value->0@),
            "invalid env COLD_WALLET_ASSETS_"@ + asset@,
        ) {
            Ok(d) => r == Ok::<Option<Decimal>, ApiError>(Some(d)),
            Err((s, m)) => fails_with(r, s, m),
        },
        given(query_value) is None && env_value is None ==> r == Ok::<Option<Decimal>, ApiError>(None),
{
    if let Some(raw) = given_value(query_value) {
        return match parse_cold_wallet_value(raw, "invalid query param cold_wallet_assets") {
            Ok(d) => Ok(Some(d)),
            Err(e) => Err(e),
        };
    }
    match env_value {
        Some(raw) => {
            let prefix = String::from_str("invalid env ").concat(cold_wallet_env_key(asset).as_str());
            proof {
                reveal_strlit("invalid env ");
                reveal_strlit("invalid env COLD_WALLET_ASSETS_");
                reveal_strlit("COLD_WALLET_ASSETS_");
                assert(prefix@ =~= "invalid env COLD_WALLET_ASSETS_"@ + asset@);
            }
            match parse_cold_wallet_value(trim(raw), prefix.as_str()) {
                Ok(d) => Ok(Some(d)),
                Err(e) => Err(e),
            }
        },
        None => Ok(None),
    }
}

/// The cold-wallet total, which must be known: from the query when given,
/// else from the environment value of `COLD_WALLET_ASSETS_<asset>`.
pub fn resolve_cold_wallet_assets(asset: &str, query_value: Option<&str>, env_value: Option<&str>) -> (r: Result<Decimal, ApiError>)
    ensures
        given(query_value) is Some ==> answers(r, cold_value(given(query_value)->0, "invalid query param cold_wallet_assets"@)),
        given(query_value) is None && env_value is Some ==> answers(
            r,
            cold_value(trim_spec(env_value->0@), "invalid env COLD_WALLET_ASSETS_"@ + asset@),
        ),
        given(query_value) is None && env_value is None ==> fails_with(
            r,
            400,
            "missing cold wallet assets value; pass ?cold_wallet_assets=... or set env COLD_WALLET_ASSETS_"@
                + asset@,
        ),
{
    match resolve_cold_wallet_assets_optional(asset, query_value, env_value) {
        Ok(Some(d)) => Ok(d),
        Ok(None) => {
            let msg = String::from_str("missing cold wallet assets value; pass ?cold_wallet_assets=... or set env ").concat(
                cold_wallet_env_key(asset).as_str(),
            );
            proof {
                reveal_strlit("missing cold wallet assets value; pass ?cold_wallet_assets=... or set env ");
                reveal_strlit("missing cold wallet assets value; pass ?cold_wallet_assets=... or set env COLD_WALLET_ASSETS_");
                reveal_strlit("COLD_WALLET_ASSETS_");
                assert(msg@ =~= "missing cold wallet assets value; pass ?cold_wallet_assets=... or set env COLD_WALLET_ASSETS_"@
                    + asset@);
            }
            Err(ApiError { status: 400, message: msg })
        },
        Err(e) => Err(e),
    }
}

/// Whether the total liabilities (the root balance of the sum tree) are
/// covered by the cold-wallet total.
pub fn liabilities_covered(total_liabilities: Decimal, cold_wallet_assets: Decimal) -> (r: bool)
    requires
        total_liabilities.wf(),
        cold_wallet_assets.wf(),
    ensures
        r == (total_liabilities.value() <= cold_wallet_assets.value()),
{
    compare(&total_liabilities, &cold_wallet_assets) != Comparison::Greater
}

/// Whether a cached SNARK still matches the leaf balance and root hash.
pub fn cached_package_fresh(entry_leaf: &str, entry_root: &str, leaf: &str, root: &str) -> (r: bool)
    ensures
        r == (entry_leaf@ == leaf@ && entry_root@ == root@),
{
    let a = String::from_str(entry_leaf);
    let b = String::from_str(leaf);
    let c = String::from_str(entry_root);
    let d = String::from_str(root);
    a == b && c == d
}

} // verus!
