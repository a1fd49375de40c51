//! The witness layout encoder.
//!
//! Given the structured input document and the circuit's ABI layout
//! descriptor (a list of field names with their starting witness index), the
//! encoder produces the complete flat witness array.  Its specification is
//! the sequence of `(index, value)` writes each layout rule performs; the
//! encoder returns exactly that sequence, or a typed error: a malformed
//! hexadecimal value (with the offending field's path), a record exceeding
//! its fixed-capacity zone, an index beyond the 32-bit witness space, or two
//! writes aimed at the same index.  Unrecognized field names are skipped, by
//! explicit policy.

use vstd::prelude::*;
use vstd::string::StrSliceExecFns;
use crate::field::{hex_ok, hex_field_val, hex_to_field, uint_to_field};
use crate::model::{Input, Condition, AccessControlCriteria, Claim, Credential, Issuer};
use crate::witness::{WitnessMap, contains_key, distinct_keys, lemma_distinct_keys_prefix};

verus! {

/// One entry of the ABI layout descriptor: a top-level field name and the
/// witness index its segment starts at.
pub struct LayoutParam {
    pub name: String,
    pub start: u32,
}

/// The ABI layout descriptor, in the order the circuit artifact lists its
/// parameters.
pub struct Layout {
    pub params: Vec<LayoutParam>,
}

/// The path of the input field whose hexadecimal value failed to parse.
#[derive(Debug, PartialEq, Eq, Structural)]
pub enum WitnessPath {
    RevocationRoot(usize),
    IssuerCode(usize),
    PublicKeyX(usize),
    PublicKeyY(usize),
    AttrCode(usize),
    ConditionIssuerCode(usize, usize),
    SubjectCode(usize),
    ClaimCode(usize, usize),
    SignatureS(usize),
    SignatureR8X(usize),
    SignatureR8Y(usize),
    Sibling(usize, usize),
    OldItem(usize),
}

/// Why an encoding pass failed.  Encoding is atomic: on any error no witness
/// array is returned.
#[derive(Debug, PartialEq, Eq, Structural)]
pub enum EncodeError {
    /// A hexadecimal string at this path is malformed.
    MalformedHex(WitnessPath),
    /// Two layout rules computed the same witness index (the payload); the
    /// second write is refused instead of silently overwriting.
    IndexCollision(u32),
    /// A computed witness index does not fit the 32-bit witness space.
    IndexOverflow,
    /// The credential at this position has more Merkle siblings than the
    /// fixed non-revocation zone can hold.
    CapacityExceeded(usize),
}

/// Number of witness slots of the fixed non-revocation proof zone inside a
/// credential segment.
pub const NON_REVOCATION_ZONE_SLOTS: u32 = 34;

/// Most Merkle siblings a non-revocation proof may carry: the zone also
/// holds the old item and the `is_old_0` flag.
pub const MAX_SIBLINGS: u32 = 32;

// ---------------------------------------------------------------------------
// The write sequences of the five layout rules.
// ---------------------------------------------------------------------------

/// `proving_time`: one scalar at `start`.
pub open spec fn proving_time_writes(t: u8, start: nat) -> Seq<(nat, nat)> {
    seq![(start, t as nat)]
}

/// `revocation_roots`: one field element per entry, contiguous.
pub open spec fn roots_writes(roots: Seq<String>, start: nat) -> Seq<(nat, nat)> {
    Seq::new(roots.len(), |i: int| ((start + i) as nat, hex_field_val(roots[i]@)))
}

/// One issuer: three contiguous slots at its base.
pub open spec fn issuer_writes(iss: Issuer, base: nat) -> Seq<(nat, nat)> {
    seq![
        (base, hex_field_val(iss.issuer_code@)),
        ((base + 1) as nat, hex_field_val(iss.public_key.x@)),
        ((base + 2) as nat, hex_field_val(iss.public_key.y@)),
    ]
}

/// `public_keys`: each issuer occupies three slots at `start + 3*i`.
pub open spec fn pubkeys_writes(keys: Seq<Issuer>, start: nat) -> Seq<(nat, nat)>
    decreases keys.len(),
{
    if keys.len() == 0 {
        Seq::empty()
    } else {
        pubkeys_writes(keys.drop_last(), start)
            + issuer_writes(keys.last(), (start + 3 * (keys.len() - 1)) as nat)
    }
}

/// One condition: a 4-slot stride at its base, issuer codes from offset 3.
pub open spec fn cond_writes(c: Condition, base: nat) -> Seq<(nat, nat)> {
    seq![
        (base, hex_field_val(c.attr_code@)),
        ((base + 1) as nat, c.operator as nat),
        ((base + 2) as nat, c.value as nat),
    ] + Seq::new(
        c.issuer_codes@.len(),
        |j: int| ((base + 3 + j) as nat, hex_field_val(c.issuer_codes@[j]@)),
    )
}

pub open spec fn conds_writes(conds: Seq<Condition>, start: nat) -> Seq<(nat, nat)>
    decreases conds.len(),
{
    if conds.len() == 0 {
        Seq::empty()
    } else {
        conds_writes(conds.drop_last(), start)
            + cond_writes(conds.last(), (start + 4 * (conds.len() - 1)) as nat)
    }
}

/// `criteria`: the conditions, then one scalar per predicate after the
/// 4-slot condition strides.
pub open spec fn criteria_writes(cr: AccessControlCriteria, start: nat) -> Seq<(nat, nat)> {
    conds_writes(cr.conditions@, start) + Seq::new(
        cr.predicates@.len(),
        |j: int| ((start + 4 * cr.conditions@.len() + j) as nat, cr.predicates@[j] as nat),
    )
}

/// The claims of one credential: two slots each (code, value).
pub open spec fn claim_writes(claims: Seq<Claim>, base: nat) -> Seq<(nat, nat)> {
    Seq::new(
        2 * claims.len(),
        |k: int|
            if k % 2 == 0 {
                ((base + k) as nat, hex_field_val(claims[k / 2].code@))
            } else {
                ((base + k) as nat, claims[k / 2].value as nat)
            },
    )
}

/// The Merkle siblings of one non-revocation proof, contiguous at its base.
pub open spec fn sibling_writes(sibs: Seq<String>, base: nat) -> Seq<(nat, nat)> {
    Seq::new(sibs.len(), |j: int| ((base + j) as nat, hex_field_val(sibs[j]@)))
}

/// The number of witness slots one credential segment occupies: six fixed
/// slots, the non-revocation zone, and two per claim.
pub open spec fn cred_stride(c: Credential) -> nat {
    6 + NON_REVOCATION_ZONE_SLOTS as nat + 2 * c.claims@.len()
}

/// One credential, cursor-driven at `base`: subject, claims, expiry,
/// signature, the fixed non-revocation zone, then the issuer index.
pub open spec fn cred_writes(c: Credential, base: nat) -> Seq<(nat, nat)> {
    let nc = c.claims@.len() as int;
    let ns = c.non_revocation_proof.siblings@.len() as int;
    seq![(base, hex_field_val(c.subject_code@))] + claim_writes(c.claims@, base + 1) + seq![
        ((base + 1 + 2 * nc) as nat, c.expired_date as nat),
        ((base + 2 + 2 * nc) as nat, hex_field_val(c.signature.s@)),
        ((base + 3 + 2 * nc) as nat, hex_field_val(c.signature.r8.x@)),
        ((base + 4 + 2 * nc) as nat, hex_field_val(c.signature.r8.y@)),
    ] + sibling_writes(c.non_revocation_proof.siblings@, (base + 5 + 2 * nc) as nat) + seq![
        ((base + 5 + 2 * nc + ns) as nat, hex_field_val(c.non_revocation_proof.old_item@)),
        ((base + 6 + 2 * nc + ns) as nat, c.non_revocation_proof.is_old_0 as nat),
        ((base + 39 + 2 * nc) as nat, c.issuer_index as nat),
    ]
}

/// Sum of the strides of a credential list; the final cursor after encoding
/// the list starting at `start` is `start` plus this sum.
pub open spec fn strides_sum(creds: Seq<Credential>) -> nat
    decreases creds.len(),
{
    if creds.len() == 0 {
        0
    } else {
        strides_sum(creds.drop_last()) + cred_stride(creds.last())
    }
}

/// `credentials`: variable-length repeated records, cursor-driven.
pub open spec fn creds_writes(creds: Seq<Credential>, start: nat) -> Seq<(nat, nat)>
    decreases creds.len(),
{
    if creds.len() == 0 {
        Seq::empty()
    } else {
        creds_writes(creds.drop_last(), start)
            + cred_writes(creds.last(), start + strides_sum(creds.drop_last()))
    }
}

// ---------------------------------------------------------------------------
// Validity of each segment.
// ---------------------------------------------------------------------------

pub open spec fn roots_hex_ok(roots: Seq<String>) -> bool {
    forall|i: int| 0 <= i < roots.len() ==> hex_ok((#[trigger] roots[i])@)
}

pub open spec fn issuer_hex_ok(iss: Issuer) -> bool {
    hex_ok(iss.issuer_code@) && hex_ok(iss.public_key.x@) && hex_ok(iss.public_key.y@)
}

pub open spec fn pubkeys_hex_ok(keys: Seq<Issuer>) -> bool {
    forall|i: int| 0 <= i < keys.len() ==> issuer_hex_ok(#[trigger] keys[i])
}

pub open spec fn cond_hex_ok(c: Condition) -> bool {
    hex_ok(c.attr_code@) && forall|j: int|
        0 <= j < c.issuer_codes@.len() ==> hex_ok((#[trigger] c.issuer_codes@[j])@)
}

pub open spec fn criteria_hex_ok(cr: AccessControlCriteria) -> bool {
    forall|i: int| 0 <= i < cr.conditions@.len() ==> cond_hex_ok(#[trigger] cr.conditions@[i])
}

pub open spec fn cred_hex_ok(c: Credential) -> bool {
    &&& hex_ok(c.subject_code@)
    &&& forall|j: int| 0 <= j < c.claims@.len() ==> hex_ok((#[trigger] c.claims@[j]).code@)
    &&& hex_ok(c.signature.s@)
    &&& hex_ok(c.signature.r8.x@)
    &&& hex_ok(c.signature.r8.y@)
    &&& forall|j: int|
        0 <= j < c.non_revocation_proof.siblings@.len() ==> hex_ok(
            (#[trigger] c.non_revocation_proof.siblings@[j])@,
        )
    &&& hex_ok(c.non_revocation_proof.old_item@)
}

pub open spec fn creds_hex_ok(creds: Seq<Credential>) -> bool {
    forall|i: int| 0 <= i < creds.len() ==> cred_hex_ok(#[trigger] creds[i])
}

/// The siblings fit the fixed non-revocation zone.
pub open spec fn cred_capacity_ok(c: Credential) -> bool {
    c.non_revocation_proof.siblings@.len() <= MAX_SIBLINGS
}

pub open spec fn creds_capacity_ok(creds: Seq<Credential>) -> bool {
    forall|i: int| 0 <= i < creds.len() ==> cred_capacity_ok(#[trigger] creds[i])
}

/// Every index the criteria segment writes fits the 32-bit witness space.
pub open spec fn criteria_fits(cr: AccessControlCriteria, start: nat) -> bool {
    &&& start + 4 * cr.conditions@.len() + cr.predicates@.len() <= 0x1_0000_0000
    &&& forall|i: int|
        0 <= i < cr.conditions@.len() ==> start + 4 * i + 3 + (
        #[trigger] cr.conditions@[i]).issuer_codes@.len() <= 0x1_0000_0000
}

// ---------------------------------------------------------------------------
// Dispatch over the layout's field names.
// ---------------------------------------------------------------------------

pub open spec fn seg_writes(input: Input, name: Seq<char>, start: nat) -> Seq<(nat, nat)> {
    if name == "proving_time"@ {
        proving_time_writes(input.proving_time, start)
    } else if name == "revocation_roots"@ {
        roots_writes(input.revocation_roots@, start)
    } else if name == "public_keys"@ {
        pubkeys_writes(input.public_keys@, start)
    } else if name == "criteria"@ {
        criteria_writes(input.criteria, start)
    } else if name == "credentials"@ {
        creds_writes(input.credentials@, start)
    } else {
        Seq::empty()
    }
}

pub open spec fn seg_hex_ok(input: Input, name: Seq<char>) -> bool {
    if name == "proving_time"@ {
        true
    } else if name == "revocation_roots"@ {
        roots_hex_ok(input.revocation_roots@)
    } else if name == "public_keys"@ {
        pubkeys_hex_ok(input.public_keys@)
    } else if name == "criteria"@ {
        criteria_hex_ok(input.criteria)
    } else if name == "credentials"@ {
        creds_hex_ok(input.credentials@)
    } else {
        true
    }
}

pub open spec fn seg_fits(input: Input, name: Seq<char>, start: nat) -> bool {
    if name == "proving_time"@ {
        true
    } else if name == "revocation_roots"@ {
        start + input.revocation_roots@.len() <= 0x1_0000_0000
    } else if name == "public_keys"@ {
        start + 3 * input.public_keys@.len() <= 0x1_0000_0000
    } else if name == "criteria"@ {
        criteria_fits(input.criteria, start)
    } else if name == "credentials"@ {
        start + strides_sum(input.credentials@) <= 0x1_0000_0000
    } else {
        true
    }
}

pub open spec fn seg_capacity_ok(input: Input, name: Seq<char>) -> bool {
    if name == "proving_time"@ {
        true
    } else if name == "revocation_roots"@ {
        true
    } else if name == "public_keys"@ {
        true
    } else if name == "criteria"@ {
        true
    } else if name == "credentials"@ {
        creds_capacity_ok(input.credentials@)
    } else {
        true
    }
}

pub open spec fn seg_ok(input: Input, name: Seq<char>, start: nat) -> bool {
    seg_hex_ok(input, name) && seg_fits(input, name, start) && seg_capacity_ok(input, name)
}

/// All writes of the whole pass, layout entry by layout entry.
pub open spec fn layout_writes(input: Input, params: Seq<LayoutParam>) -> Seq<(nat, nat)>
    decreases params.len(),
{
    if params.len() == 0 {
        Seq::empty()
    } else {
        layout_writes(input, params.drop_last()) + seg_writes(
            input,
            params.last().name@,
            params.last().start as nat,
        )
    }
}

pub open spec fn segs_ok(input: Input, params: Seq<LayoutParam>) -> bool {
    forall|i: int|
        0 <= i < params.len() ==> seg_ok(
            input,
            (#[trigger] params[i]).name@,
            params[i].start as nat,
        )
}

/// The whole pass succeeds: every segment is well formed and no two writes
/// aim at the same index.
pub open spec fn encode_ok(input: Input, params: Seq<LayoutParam>) -> bool {
    segs_ok(input, params) && distinct_keys(layout_writes(input, params))
}

// ---------------------------------------------------------------------------
// Shared helpers.
// ---------------------------------------------------------------------------

/// Character-for-character string equality.
fn str_eq(a: &str, b: &str) -> (r: bool)
    ensures
        r <==> a@ == b@,
{
    let n = a.unicode_len();
    let m = b.unicode_len();
    if n != m {
        proof {
            assert(a@ != b@) by {
                if a@ == b@ {
                    assert(a@.len() == b@.len());
                }
            }
        }
        return false;
    }
    let mut i: usize = 0;
    while i < n
        invariant
            n as nat == a@.len(),
            n as nat == b@.len(),
            i <= n,
            forall|j: int| 0 <= j < i ==> a@[j] == b@[j],
        decreases n - i,
    {
        if a.get_char(i) != b.get_char(i) {
            return false;
        }
        i += 1;
    }
    proof {
        assert(a@ =~= b@);
    }
    true
}

/// A write already made collides with the `m`-th write of a planned block:
/// the block cannot extend the prefix with all indices distinct.
proof fn lemma_collision(prefix: Seq<(nat, nat)>, sw: Seq<(nat, nat)>, m: int)
    requires
        0 <= m < sw.len(),
        contains_key(prefix + sw.take(m), sw[m].0),
    ensures
        !distinct_keys(prefix + sw),
{
    let cur = prefix + sw.take(m);
    let i0 = choose|i: int| 0 <= i < cur.len() && (#[trigger] cur[i]).0 == sw[m].0;
    assert((prefix + sw)[i0] == cur[i0]);
    assert((prefix + sw)[prefix.len() + m] == sw[m]);
    assert(!distinct_keys(prefix + sw)) by {
        assert(0 <= i0 < prefix.len() + m < (prefix + sw).len());
        assert((prefix + sw)[i0].0 == (prefix + sw)[prefix.len() + m].0);
    }
}

/// Parses one hexadecimal value and writes it at `index`.
fn put_hex(w: &mut WitnessMap, index: u32, s: &str, path: WitnessPath) -> (r: Result<
    (),
    EncodeError,
>)
    requires
        old(w).wf(),
    ensures
        final(w).wf(),
        r is Ok ==> hex_ok(s@) && !contains_key(old(w)@, index as nat) && final(w)@ == old(
            w,
        )@.push((index as nat, hex_field_val(s@))),
        r is Err ==> *final(w) == *old(w),
        r matches Err(e) ==> (match e {
            EncodeError::MalformedHex(p) => p == path && !hex_ok(s@),
            EncodeError::IndexCollision(ix) => ix == index && contains_key(
                old(w)@,
                index as nat,
            ) && hex_ok(s@),
            _ => false,
        }),
{
    match hex_to_field(s) {
        None => Err(EncodeError::MalformedHex(path)),
        Some(element) => {
            if w.insert(index, element) {
                Ok(())
            } else {
                Err(EncodeError::IndexCollision(index))
            }
        },
    }
}

/// Embeds one small integer and writes it at `index`.
fn put_uint(w: &mut WitnessMap, index: u32, n: u8) -> (r: Result<(), EncodeError>)
    requires
        old(w).wf(),
    ensures
        final(w).wf(),
        r is Ok ==> !contains_key(old(w)@, index as nat) && final(w)@ == old(w)@.push(
            (index as nat, n as nat),
        ),
        r is Err ==> *final(w) == *old(w) && r == Result::<(), EncodeError>::Err(
            EncodeError::IndexCollision(index),
        ) && contains_key(old(w)@, index as nat),
{
    let element = uint_to_field(n);
    if w.insert(index, element) {
        Ok(())
    } else {
        Err(EncodeError::IndexCollision(index))
    }
}

// ---------------------------------------------------------------------------
// Segment encoders.
// ---------------------------------------------------------------------------

/// `revocation_roots`: one field element per entry at `start + i`.
fn encode_revocation_roots(w: &mut WitnessMap, roots: &Vec<String>, start: u32) -> (r: Result<
    (),
    EncodeError,
>)
    requires
        old(w).wf(),
    ensures
        final(w).wf(),
        r is Ok ==> roots_hex_ok(roots@) && (start as nat) + roots@.len() <= 0x1_0000_0000
            && final(w)@ == old(w)@ + roots_writes(roots@, start as nat),
        r matches Err(e) ==> (match e {
            EncodeError::MalformedHex(_) => !roots_hex_ok(roots@),
            EncodeError::IndexOverflow => (start as nat) + roots@.len() > 0x1_0000_0000,
            EncodeError::IndexCollision(_) => !distinct_keys(
                old(w)@ + roots_writes(roots@, start as nat),
            ),
            _ => false,
        }),
{
    let ghost sw = roots_writes(roots@, start as nat);
    let n = roots.len();
    if (n as u64) > 0x1_0000_0000u64 - (start as u64) {
        return Err(EncodeError::IndexOverflow);
    }
    let mut j: usize = 0;
    while j < n
        invariant
            old(w).wf(),
            w.wf(),
            n == roots@.len(),
            sw == roots_writes(roots@, start as nat),
            (start as nat) + n as nat <= 0x1_0000_0000,
            j <= n,
            w@ == old(w)@ + sw.take(j as int),
            forall|i: int| 0 <= i < j ==> hex_ok((#[trigger] roots@[i])@),
        decreases n - j,
    {
        let index: u32 = start + (j as u32);
        proof {
            assert(sw[j as int] == ((start + j) as nat, hex_field_val(roots@[j as int]@)));
        }
        match put_hex(w, index, roots[j].as_str(), WitnessPath::RevocationRoot(j)) {
            Ok(()) => {
                proof {
                    assert(w@ =~= old(w)@ + sw.take(j as int + 1));
                }
            },
            Err(e) => {
                proof {
                    if e matches EncodeError::IndexCollision(_) {
                        lemma_collision(old(w)@, sw, j as int);
                    }
                }
                return Err(e);
            },
        }
        j += 1;
    }
    proof {
        assert(sw.take(n as int) =~= sw);
    }
    Ok(())
}

/// `proving_time`: one scalar at `start`.
fn encode_proving_time(w: &mut WitnessMap, t: u8, start: u32) -> (r: Result<(), EncodeError>)
    requires
        old(w).wf(),
    ensures
        final(w).wf(),
        r is Ok ==> final(w)@ == old(w)@ + proving_time_writes(t, start as nat),
        r matches Err(e) ==> (match e {
            EncodeError::IndexCollision(_) => !distinct_keys(
                old(w)@ + proving_time_writes(t, start as nat),
            ),
            _ => false,
        }),
{
    let ghost sw = proving_time_writes(t, start as nat);
    match put_uint(w, start, t) {
        Ok(()) => {
            proof {
                assert(w@ =~= old(w)@ + sw);
            }
            Ok(())
        },
        Err(e) => {
            proof {
                assert(old(w)@ + sw.take(0) =~= old(w)@);
                lemma_collision(old(w)@, sw, 0);
            }
            Err(e)
        },
    }
}

// --- public keys ---

proof fn lemma_pubkeys_step(keys: Seq<Issuer>, start: nat, i: int)
    requires
        0 <= i < keys.len(),
    ensures
        pubkeys_writes(keys.take(i + 1), start) == pubkeys_writes(keys.take(i), start)
            + issuer_writes(keys[i], (start + 3 * i) as nat),
{
    let t = keys.take(i + 1);
    assert(t.drop_last() =~= keys.take(i));
    assert(t.last() == keys[i]);
}

proof fn lemma_pubkeys_distinct_take(
    prefix: Seq<(nat, nat)>,
    keys: Seq<Issuer>,
    start: nat,
    i: int,
)
    requires
        0 <= i <= keys.len(),
        distinct_keys(prefix + pubkeys_writes(keys, start)),
    ensures
        distinct_keys(prefix + pubkeys_writes(keys.take(i), start)),
    decreases keys.len() - i,
{
    if i == keys.len() {
        assert(keys.take(i) =~= keys);
    } else {
        lemma_pubkeys_distinct_take(prefix, keys, start, i + 1);
        lemma_pubkeys_step(keys, start, i);
        let a = prefix + pubkeys_writes(keys.take(i), start);
        let b = issuer_writes(keys[i], (start + 3 * i) as nat);
        assert(prefix + pubkeys_writes(keys.take(i + 1), start) =~= a + b);
        lemma_distinct_keys_prefix(a, b);
    }
}

/// One issuer's three slots.
fn encode_issuer(w: &mut WitnessMap, iss: &Issuer, base: u32, pos: usize) -> (r: Result<
    (),
    EncodeError,
>)
    requires
        old(w).wf(),
        base as nat + 3 <= 0x1_0000_0000,
    ensures
        final(w).wf(),
        r is Ok ==> issuer_hex_ok(*iss) && final(w)@ == old(w)@ + issuer_writes(
            *iss,
            base as nat,
        ),
        r matches Err(e) ==> (match e {
            EncodeError::MalformedHex(_) => !issuer_hex_ok(*iss),
            EncodeError::IndexCollision(_) => !distinct_keys(
                old(w)@ + issuer_writes(*iss, base as nat),
            ),
            _ => false,
        }),
{
    let ghost iw = issuer_writes(*iss, base as nat);
    proof {
        assert(old(w)@ + iw.take(0) =~= old(w)@);
    }
    match put_hex(w, base, iss.issuer_code.as_str(), WitnessPath::IssuerCode(pos)) {
        Ok(()) => (),
        Err(e) => {
            proof {
                if e matches EncodeError::IndexCollision(_) {
                    lemma_collision(old(w)@, iw, 0);
                }
            }
            return Err(e);
        },
    }
    proof {
        assert(w@ =~= old(w)@ + iw.take(1));
    }
    match put_hex(w, base + 1, iss.public_key.x.as_str(), WitnessPath::PublicKeyX(pos)) {
        Ok(()) => (),
        Err(e) => {
            proof {
                if e matches EncodeError::IndexCollision(_) {
                    lemma_collision(old(w)@, iw, 1);
                }
            }
            return Err(e);
        },
    }
    proof {
        assert(w@ =~= old(w)@ + iw.take(2));
    }
    match put_hex(w, base + 2, iss.public_key.y.as_str(), WitnessPath::PublicKeyY(pos)) {
        Ok(()) => (),
        Err(e) => {
            proof {
                if e matches EncodeError::IndexCollision(_) {
                    lemma_collision(old(w)@, iw, 2);
                }
            }
            return Err(e);
        },
    }
    proof {
        assert(w@ =~= old(w)@ + iw);
    }
    Ok(())
}

/// `public_keys`: three contiguous slots per issuer at `start + 3*i`.
fn encode_public_keys(w: &mut WitnessMap, keys: &Vec<Issuer>, start: u32) -> (r: Result<
    (),
    EncodeError,
>)
    requires
        old(w).wf(),
    ensures
        final(w).wf(),
        r is Ok ==> pubkeys_hex_ok(keys@) && (start as nat) + 3 * keys@.len() <= 0x1_0000_0000
            && final(w)@ == old(w)@ + pubkeys_writes(keys@, start as nat),
        r matches Err(e) ==> (match e {
            EncodeError::MalformedHex(_) => !pubkeys_hex_ok(keys@),
            EncodeError::IndexOverflow => (start as nat) + 3 * keys@.len() > 0x1_0000_0000,
            EncodeError::IndexCollision(_) => !distinct_keys(
                old(w)@ + pubkeys_writes(keys@, start as nat),
            ),
            _ => false,
        }),
{
    let ghost sw = pubkeys_writes(keys@, start as nat);
    let n = keys.len();
    if (start as u128) + 3 * (n as u128) > 0x1_0000_0000u128 {
        return Err(EncodeError::IndexOverflow);
    }
    let mut i: usize = 0;
    while i < n
        invariant
            old(w).wf(),
            w.wf(),
            n == keys@.len(),
            sw == pubkeys_writes(keys@, start as nat),
            (start as nat) + 3 * n as nat <= 0x1_0000_0000,
            i <= n,
            w@ == old(w)@ + pubkeys_writes(keys@.take(i as int), start as nat),
            forall|k: int| 0 <= k < i ==> issuer_hex_ok(#[trigger] keys@[k]),
        decreases n - i,
    {
        let base64: u64 = (start as u64) + 3 * (i as u64);
        let base: u32 = base64 as u32;
        let ghost taken = pubkeys_writes(keys@.take(i as int), start as nat);
        match encode_issuer(w, &keys[i], base, i) {
            Ok(()) => {
                proof {
                    lemma_pubkeys_step(keys@, start as nat, i as int);
                    assert(w@ =~= old(w)@ + pubkeys_writes(
                        keys@.take(i as int + 1),
                        start as nat,
                    ));
                }
            },
            Err(e) => {
                proof {
                    if e matches EncodeError::IndexCollision(_) {
                        lemma_pubkeys_step(keys@, start as nat, i as int);
                        let a = old(w)@ + taken;
                        let b = issuer_writes(keys@[i as int], (start as nat + 3 * i) as nat);
                        assert(a + b =~= old(w)@ + pubkeys_writes(
                            keys@.take(i as int + 1),
                            start as nat,
                        ));
                        if distinct_keys(old(w)@ + sw) {
                            lemma_pubkeys_distinct_take(
                                old(w)@,
                                keys@,
                                start as nat,
                                i as int + 1,
                            );
                        }
                    }
                }
                return Err(e);
            },
        }
        i += 1;
    }
    proof {
        assert(keys@.take(n as int) =~= keys@);
    }
    Ok(())
}

// --- criteria ---

proof fn lemma_conds_step(conds: Seq<Condition>, start: nat, i: int)
    requires
        0 <= i < conds.len(),
    ensures
        conds_writes(conds.take(i + 1), start) == conds_writes(conds.take(i), start)
            + cond_writes(conds[i], (start + 4 * i) as nat),
{
    let t = conds.take(i + 1);
    assert(t.drop_last() =~= conds.take(i));
    assert(t.last() == conds[i]);
}

proof fn lemma_conds_distinct_take(
    prefix: Seq<(nat, nat)>,
    conds: Seq<Condition>,
    start: nat,
    i: int,
)
    requires
        0 <= i <= conds.len(),
        distinct_keys(prefix + conds_writes(conds, start)),
    ensures
        distinct_keys(prefix + conds_writes(conds.take(i), start)),
    decreases conds.len() - i,
{
    if i == conds.len() {
        assert(conds.take(i) =~= conds);
    } else {
        lemma_conds_distinct_take(prefix, conds, start, i + 1);
        lemma_conds_step(conds, start, i);
        let a = prefix + conds_writes(conds.take(i), start);
        let b = cond_writes(conds[i], (start + 4 * i) as nat);
        assert(prefix + conds_writes(conds.take(i + 1), start) =~= a + b);
        lemma_distinct_keys_prefix(a, b);
    }
}

/// One condition's 4-slot stride, issuer codes from offset 3.
fn encode_condition(w: &mut WitnessMap, c: &Condition, base: u32, pos: usize) -> (r: Result<
    (),
    EncodeError,
>)
    requires
        old(w).wf(),
        base as nat + 3 + c.issuer_codes@.len() <= 0x1_0000_0000,
    ensures
        final(w).wf(),
        r is Ok ==> cond_hex_ok(*c) && final(w)@ == old(w)@ + cond_writes(*c, base as nat),
        r matches Err(e) ==> (match e {
            EncodeError::MalformedHex(_) => !cond_hex_ok(*c),
            EncodeError::IndexCollision(_) => !distinct_keys(
                old(w)@ + cond_writes(*c, base as nat),
            ),
            _ => false,
        }),
{
    let ghost cw = cond_writes(*c, base as nat);
    proof {
        assert(old(w)@ + cw.take(0) =~= old(w)@);
    }
    match put_hex(w, base, c.attr_code.as_str(), WitnessPath::AttrCode(pos)) {
        Ok(()) => (),
        Err(e) => {
            proof {
                if e matches EncodeError::IndexCollision(_) {
                    lemma_collision(old(w)@, cw, 0);
                }
            }
            return Err(e);
        },
    }
    proof {
        assert(w@ =~= old(w)@ + cw.take(1));
    }
    match put_uint(w, base + 1, c.operator) {
        Ok(()) => (),
        Err(e) => {
            proof {
                lemma_collision(old(w)@, cw, 1);
            }
            return Err(e);
        },
    }
    proof {
        assert(w@ =~= old(w)@ + cw.take(2));
    }
    match put_uint(w, base + 2, c.value) {
        Ok(()) => (),
        Err(e) => {
            proof {
                lemma_collision(old(w)@, cw, 2);
            }
            return Err(e);
        },
    }
    proof {
        assert(w@ =~= old(w)@ + cw.take(3));
    }
    let nc = c.issuer_codes.len();
    let mut j: usize = 0;
    while j < nc
        invariant
            old(w).wf(),
            w.wf(),
            nc == c.issuer_codes@.len(),
            cw == cond_writes(*c, base as nat),
            base as nat + 3 + nc as nat <= 0x1_0000_0000,
            j <= nc,
            w@ == old(w)@ + cw.take(3 + j as int),
            forall|k: int| 0 <= k < j ==> hex_ok((#[trigger] c.issuer_codes@[k])@),
        decreases nc - j,
    {
        let index: u32 = base + 3 + (j as u32);
        proof {
            assert(cw[3 + j as int] == ((base as nat + 3 + j) as nat, hex_field_val(
                c.issuer_codes@[j as int]@,
            )));
        }
        match put_hex(
            w,
            index,
            c.issuer_codes[j].as_str(),
            WitnessPath::ConditionIssuerCode(pos, j),
        ) {
            Ok(()) => {
                proof {
                    assert(w@ =~= old(w)@ + cw.take(3 + j as int + 1));
                }
            },
            Err(e) => {
                proof {
                    if e matches EncodeError::IndexCollision(_) {
                        lemma_collision(old(w)@, cw, 3 + j as int);
                    }
                }
                return Err(e);
            },
        }
        j += 1;
    }
    proof {
        assert(cw.take(3 + nc as int) =~= cw);
    }
    Ok(())
}

/// `criteria`: the conditions' strides, then the predicates.
fn encode_criteria(w: &mut WitnessMap, cr: &AccessControlCriteria, start: u32) -> (r: Result<
    (),
    EncodeError,
>)
    requires
        old(w).wf(),
    ensures
        final(w).wf(),
        r is Ok ==> criteria_hex_ok(*cr) && criteria_fits(*cr, start as nat) && final(w)@ == old(
            w,
        )@ + criteria_writes(*cr, start as nat),
        r matches Err(e) ==> (match e {
            EncodeError::MalformedHex(_) => !criteria_hex_ok(*cr),
            EncodeError::IndexOverflow => !criteria_fits(*cr, start as nat),
            EncodeError::IndexCollision(_) => !distinct_keys(
                old(w)@ + criteria_writes(*cr, start as nat),
            ),
            _ => false,
        }),
{
    let ghost sw = criteria_writes(*cr, start as nat);
    let ghost condsw = conds_writes(cr.conditions@, start as nat);
    let n = cr.conditions.len();
    let np = cr.predicates.len();
    if (start as u128) + 4 * (n as u128) + (np as u128) > 0x1_0000_0000u128 {
        return Err(EncodeError::IndexOverflow);
    }
    let mut i: usize = 0;
    while i < n
        invariant
            old(w).wf(),
            w.wf(),
            n == cr.conditions@.len(),
            np == cr.predicates@.len(),
            sw == criteria_writes(*cr, start as nat),
            condsw == conds_writes(cr.conditions@, start as nat),
            (start as nat) + 4 * n as nat + np as nat <= 0x1_0000_0000,
            i <= n,
            w@ == old(w)@ + conds_writes(cr.conditions@.take(i as int), start as nat),
            forall|k: int| 0 <= k < i ==> cond_hex_ok(#[trigger] cr.conditions@[k]),
            forall|k: int|
                0 <= k < i ==> (start as nat) + 4 * k + 3 + (
                #[trigger] cr.conditions@[k]).issuer_codes@.len() <= 0x1_0000_0000,
        decreases n - i,
    {
        let cond = &cr.conditions[i];
        let icl = cond.issuer_codes.len();
        if (start as u128) + 4 * (i as u128) + 3 + (icl as u128) > 0x1_0000_0000u128 {
            proof {
                assert(icl as nat == cr.conditions@[i as int].issuer_codes@.len());
                assert((start as nat) + 4 * (i as nat) + 3 + (icl as nat) > 0x1_0000_0000);
                assert(!criteria_fits(*cr, start as nat));
            }
            return Err(EncodeError::IndexOverflow);
        }
        let base64: u64 = (start as u64) + 4 * (i as u64);
        let base: u32 = base64 as u32;
        let ghost taken = conds_writes(cr.conditions@.take(i as int), start as nat);
        match encode_condition(w, cond, base, i) {
            Ok(()) => {
                proof {
                    lemma_conds_step(cr.conditions@, start as nat, i as int);
                    assert(w@ =~= old(w)@ + conds_writes(
                        cr.conditions@.take(i as int + 1),
                        start as nat,
                    ));
                }
            },
            Err(e) => {
                proof {
                    if e matches EncodeError::IndexCollision(_) {
                        lemma_conds_step(cr.conditions@, start as nat, i as int);
                        let a = old(w)@ + taken;
                        let b = cond_writes(cr.conditions@[i as int], (start as nat + 4 * i) as nat);
                        assert(a + b =~= old(w)@ + conds_writes(
                            cr.conditions@.take(i as int + 1),
                            start as nat,
                        ));
                        if distinct_keys(old(w)@ + sw) {
                            assert(old(w)@ + sw =~= (old(w)@ + condsw) + sw.skip(condsw.len() as int)) by {
                                assert(sw.take(condsw.len() as int) =~= condsw);
                            }
                            lemma_distinct_keys_prefix(old(w)@ + condsw, sw.skip(condsw.len() as int));
                            lemma_conds_distinct_take(old(w)@, cr.conditions@, start as nat, i as int + 1);
                        }
                    }
                }
                return Err(e);
            },
        }
        i += 1;
    }
    proof {
        assert(cr.conditions@.take(n as int) =~= cr.conditions@);
        assert(w@ == old(w)@ + condsw);
    }
    let mut j: usize = 0;
    while j < np
        invariant
            old(w).wf(),
            w.wf(),
            n == cr.conditions@.len(),
            np == cr.predicates@.len(),
            sw == criteria_writes(*cr, start as nat),
            condsw == conds_writes(cr.conditions@, start as nat),
            (start as nat) + 4 * n as nat + np as nat <= 0x1_0000_0000,
            j <= np,
            w@ == old(w)@ + sw.take(condsw.len() as int + j as int),
            sw.len() == condsw.len() + np as nat,
        decreases np - j,
    {
        let index64: u64 = (start as u64) + 4 * (n as u64) + (j as u64);
        let index: u32 = index64 as u32;
        proof {
            assert(sw[condsw.len() as int + j as int] == ((start as nat + 4 * n as nat + j) as nat,
            cr.predicates@[j as int] as nat));
        }
        match put_uint(w, index, cr.predicates[j]) {
            Ok(()) => {
                proof {
                    assert(w@ =~= old(w)@ + sw.take(condsw.len() as int + j as int + 1));
                }
            },
            Err(e) => {
                proof {
                    lemma_collision(old(w)@, sw, condsw.len() as int + j as int);
                }
                return Err(e);
            },
        }
        j += 1;
    }
    proof {
        assert(sw.take(condsw.len() as int + np as int) =~= sw);
    }
    Ok(())
}

// --- credentials ---

proof fn lemma_strides_step(creds: Seq<Credential>, i: int)
    requires
        0 <= i < creds.len(),
    ensures
        strides_sum(creds.take(i + 1)) == strides_sum(creds.take(i)) + cred_stride(creds[i]),
{
    let t = creds.take(i + 1);
    assert(t.drop_last() =~= creds.take(i));
    assert(t.last() == creds[i]);
}

proof fn lemma_strides_mono(creds: Seq<Credential>, i: int)
    requires
        0 <= i <= creds.len(),
    ensures
        strides_sum(creds.take(i)) <= strides_sum(creds),
    decreases creds.len() - i,
{
    if i == creds.len() {
        assert(creds.take(i) =~= creds);
    } else {
        lemma_strides_step(creds, i);
        lemma_strides_mono(creds, i + 1);
    }
}

proof fn lemma_creds_step(creds: Seq<Credential>, start: nat, i: int)
    requires
        0 <= i < creds.len(),
    ensures
        creds_writes(creds.take(i + 1), start) == creds_writes(creds.take(i), start)
            + cred_writes(creds[i], start + strides_sum(creds.take(i))),
{
    let t = creds.take(i + 1);
    assert(t.drop_last() =~= creds.take(i));
    assert(t.last() == creds[i]);
}

proof fn lemma_creds_distinct_take(
    prefix: Seq<(nat, nat)>,
    creds: Seq<Credential>,
    start: nat,
    i: int,
)
    requires
        0 <= i <= creds.len(),
        distinct_keys(prefix + creds_writes(creds, start)),
    ensures
        distinct_keys(prefix + creds_writes(creds.take(i), start)),
    decreases creds.len() - i,
{
    if i == creds.len() {
        assert(creds.take(i) =~= creds);
    } else {
        lemma_creds_distinct_take(prefix, creds, start, i + 1);
        lemma_creds_step(creds, start, i);
        let a = prefix + creds_writes(creds.take(i), start);
        let b = cred_writes(creds[i], start + strides_sum(creds.take(i)));
        assert(prefix + creds_writes(creds.take(i + 1), start) =~= a + b);
        lemma_distinct_keys_prefix(a, b);
    }
}

/// One credential's segment at `base`: subject, claims, expiry, signature,
/// the fixed non-revocation zone, then the issuer index.
#[verifier::rlimit(30)]
fn encode_credential(w: &mut WitnessMap, c: &Credential, base: u32, pos: usize) -> (r: Result<
    (),
    EncodeError,
>)
    requires
        old(w).wf(),
        base as nat + cred_stride(*c) <= 0x1_0000_0000,
        cred_capacity_ok(*c),
    ensures
        final(w).wf(),
        r is Ok ==> cred_hex_ok(*c) && final(w)@ == old(w)@ + cred_writes(*c, base as nat),
        r matches Err(e) ==> (match e {
            EncodeError::MalformedHex(_) => !cred_hex_ok(*c),
            EncodeError::IndexCollision(_) => !distinct_keys(
                old(w)@ + cred_writes(*c, base as nat),
            ),
            _ => false,
        }),
{
    let ghost cw = cred_writes(*c, base as nat);
    let ncl = c.claims.len();
    let nsb = c.non_revocation_proof.siblings.len();
    proof {
        assert(cw.len() == 8 + 2 * c.claims@.len() + c.non_revocation_proof.siblings@.len());
        assert(old(w)@ + cw.take(0) =~= old(w)@);
    }
    match put_hex(w, base, c.subject_code.as_str(), WitnessPath::SubjectCode(pos)) {
        Ok(()) => (),
        Err(e) => {
            proof {
                if e matches EncodeError::IndexCollision(_) {
                    lemma_collision(old(w)@, cw, 0);
                }
            }
            return Err(e);
        },
    }
    proof {
        assert(w@ =~= old(w)@ + cw.take(1));
    }
    let mut j: usize = 0;
    while j < ncl
        invariant
            old(w).wf(),
            w.wf(),
            ncl == c.claims@.len(),
            base as nat + cred_stride(*c) <= 0x1_0000_0000,
            cw == cred_writes(*c, base as nat),
            cw.len() == 8 + 2 * c.claims@.len() + c.non_revocation_proof.siblings@.len(),
            j <= ncl,
            w@ == old(w)@ + cw.take(1 + 2 * j as int),
            forall|k: int| 0 <= k < j ==> hex_ok((#[trigger] c.claims@[k]).code@),
        decreases ncl - j,
    {
        let cbase: u32 = base + 1 + 2 * (j as u32);
        proof {
            let m = 1 + 2 * j as int;
            assert(cw[m] == claim_writes(c.claims@, base as nat + 1)[2 * j as int]);
            assert((2 * j as int) % 2 == 0 && (2 * j as int) / 2 == j as int);
            assert(cw[m] == ((base as nat + 1 + 2 * j) as nat, hex_field_val(
                c.claims@[j as int].code@,
            )));
        }
        match put_hex(w, cbase, c.claims[j].code.as_str(), WitnessPath::ClaimCode(pos, j)) {
            Ok(()) => {
                proof {
                    assert(w@ =~= old(w)@ + cw.take(2 + 2 * j as int));
                }
            },
            Err(e) => {
                proof {
                    if e matches EncodeError::IndexCollision(_) {
                        lemma_collision(old(w)@, cw, 1 + 2 * j as int);
                    }
                }
                return Err(e);
            },
        }
        proof {
            let m = 2 + 2 * j as int;
            assert(cw[m] == claim_writes(c.claims@, base as nat + 1)[2 * j as int + 1]);
            assert((2 * j as int + 1) % 2 == 1 && (2 * j as int + 1) / 2 == j as int);
            assert(cw[m] == ((base as nat + 2 + 2 * j) as nat, c.claims@[j as int].value as nat));
        }
        match put_uint(w, cbase + 1, c.claims[j].value) {
            Ok(()) => {
                proof {
                    assert(w@ =~= old(w)@ + cw.take(3 + 2 * j as int));
                }
            },
            Err(e) => {
                proof {
                    lemma_collision(old(w)@, cw, 2 + 2 * j as int);
                }
                return Err(e);
            },
        }
        j += 1;
    }
    let nc32: u32 = ncl as u32;
    let e_idx: u32 = base + 1 + 2 * nc32;
    proof {
        let nc = c.claims@.len() as int;
        assert(cw[1 + 2 * nc] == ((base as nat + 1 + 2 * nc) as nat, c.expired_date as nat));
    }
    match put_uint(w, e_idx, c.expired_date) {
        Ok(()) => {
            proof {
                assert(w@ =~= old(w)@ + cw.take(2 + 2 * c.claims@.len() as int));
            }
        },
        Err(e) => {
            proof {
                lemma_collision(old(w)@, cw, 1 + 2 * (c.claims@.len() as int));
            }
            return Err(e);
        },
    }
    proof {
        let nc = c.claims@.len() as int;
        assert(cw[2 + 2 * nc] == ((base as nat + 2 + 2 * nc) as nat, hex_field_val(
            c.signature.s@,
        )));
    }
    match put_hex(w, e_idx + 1, c.signature.s.as_str(), WitnessPath::SignatureS(pos)) {
        Ok(()) => {
            proof {
                assert(w@ =~= old(w)@ + cw.take(3 + 2 * c.claims@.len() as int));
            }
        },
        Err(e) => {
            proof {
                if e matches EncodeError::IndexCollision(_) {
                    lemma_collision(old(w)@, cw, 2 + 2 * (c.claims@.len() as int));
                }
            }
            return Err(e);
        },
    }
    proof {
        let nc = c.claims@.len() as int;
        assert(cw[3 + 2 * nc] == ((base as nat + 3 + 2 * nc) as nat, hex_field_val(
            c.signature.r8.x@,
        )));
    }
    match put_hex(w, e_idx + 2, c.signature.r8.x.as_str(), WitnessPath::SignatureR8X(pos)) {
        Ok(()) => {
            proof {
                assert(w@ =~= old(w)@ + cw.take(4 + 2 * c.claims@.len() as int));
            }
        },
        Err(e) => {
            proof {
                if e matches EncodeError::IndexCollision(_) {
                    lemma_collision(old(w)@, cw, 3 + 2 * (c.claims@.len() as int));
                }
            }
            return Err(e);
        },
    }
    proof {
        let nc = c.claims@.len() as int;
        assert(cw[4 + 2 * nc] == ((base as nat + 4 + 2 * nc) as nat, hex_field_val(
            c.signature.r8.y@,
        )));
    }
    match put_hex(w, e_idx + 3, c.signature.r8.y.as_str(), WitnessPath::SignatureR8Y(pos)) {
        Ok(()) => {
            proof {
                assert(w@ =~= old(w)@ + cw.take(5 + 2 * c.claims@.len() as int));
            }
        },
        Err(e) => {
            proof {
                if e matches EncodeError::IndexCollision(_) {
                    lemma_collision(old(w)@, cw, 4 + 2 * (c.claims@.len() as int));
                }
            }
            return Err(e);
        },
    }
    let zone: u32 = e_idx + 4;
    let mut j: usize = 0;
    while j < nsb
        invariant
            old(w).wf(),
            w.wf(),
            ncl == c.claims@.len(),
            nsb == c.non_revocation_proof.siblings@.len(),
            nsb <= 32,
            zone as nat == base as nat + 5 + 2 * c.claims@.len(),
            base as nat + cred_stride(*c) <= 0x1_0000_0000,
            cw == cred_writes(*c, base as nat),
            cw.len() == 8 + 2 * c.claims@.len() + c.non_revocation_proof.siblings@.len(),
            j <= nsb,
            w@ == old(w)@ + cw.take(5 + 2 * c.claims@.len() as int + j as int),
            forall|k: int|
                0 <= k < j ==> hex_ok((#[trigger] c.non_revocation_proof.siblings@[k])@),
        decreases nsb - j,
    {
        proof {
            let nc = c.claims@.len() as int;
            let m = 5 + 2 * nc + j as int;
            assert(cw[m] == sibling_writes(
                c.non_revocation_proof.siblings@,
                (base as nat + 5 + 2 * nc) as nat,
            )[j as int]);
            assert(cw[m] == ((base as nat + 5 + 2 * nc + j) as nat, hex_field_val(
                c.non_revocation_proof.siblings@[j as int]@,
            )));
        }
        match put_hex(
            w,
            zone + (j as u32),
            c.non_revocation_proof.siblings[j].as_str(),
            WitnessPath::Sibling(pos, j),
        ) {
            Ok(()) => {
                proof {
                    assert(w@ =~= old(w)@ + cw.take(6 + 2 * c.claims@.len() as int + j as int));
                }
            },
            Err(e) => {
                proof {
                    if e matches EncodeError::IndexCollision(_) {
                        lemma_collision(old(w)@, cw, 5 + 2 * c.claims@.len() as int + j as int);
                    }
                }
                return Err(e);
            },
        }
        j += 1;
    }
    let ns32: u32 = nsb as u32;
    proof {
        let nc = c.claims@.len() as int;
        let ns = c.non_revocation_proof.siblings@.len() as int;
        assert(cw[5 + 2 * nc + ns] == ((base as nat + 5 + 2 * nc + ns) as nat, hex_field_val(
            c.non_revocation_proof.old_item@,
        )));
    }
    match put_hex(
        w,
        zone + ns32,
        c.non_revocation_proof.old_item.as_str(),
        WitnessPath::OldItem(pos),
    ) {
        Ok(()) => {
            proof {
                assert(w@ =~= old(w)@ + cw.take(
                    6 + 2 * c.claims@.len() as int + c.non_revocation_proof.siblings@.len() as int,
                ));
            }
        },
        Err(e) => {
            proof {
                if e matches EncodeError::IndexCollision(_) {
                    lemma_collision(
                        old(w)@,
                        cw,
                        5 + 2 * c.claims@.len() as int + c.non_revocation_proof.siblings@.len() as int,
                    );
                }
            }
            return Err(e);
        },
    }
    proof {
        let nc = c.claims@.len() as int;
        let ns = c.non_revocation_proof.siblings@.len() as int;
        assert(cw[6 + 2 * nc + ns] == ((base as nat + 6 + 2 * nc + ns) as nat,
        c.non_revocation_proof.is_old_0 as nat));
    }
    match put_uint(w, zone + ns32 + 1, c.non_revocation_proof.is_old_0) {
        Ok(()) => {
            proof {
                assert(w@ =~= old(w)@ + cw.take(
                    7 + 2 * c.claims@.len() as int + c.non_revocation_proof.siblings@.len() as int,
                ));
            }
        },
        Err(e) => {
            proof {
                lemma_collision(
                    old(w)@,
                    cw,
                    6 + 2 * c.claims@.len() as int + c.non_revocation_proof.siblings@.len() as int,
                );
            }
            return Err(e);
        },
    }
    proof {
        let nc = c.claims@.len() as int;
        let ns = c.non_revocation_proof.siblings@.len() as int;
        assert(cw[7 + 2 * nc + ns] == ((base as nat + 39 + 2 * nc) as nat,
        c.issuer_index as nat));
    }
    match put_uint(w, base + 39 + 2 * nc32, c.issuer_index) {
        Ok(()) => {
            proof {
                assert(w@ =~= old(w)@ + cw.take(
                    8 + 2 * c.claims@.len() as int + c.non_revocation_proof.siblings@.len() as int,
                ));
            }
        },
        Err(e) => {
            proof {
                lemma_collision(
                    old(w)@,
                    cw,
                    7 + 2 * c.claims@.len() as int + c.non_revocation_proof.siblings@.len() as int,
                );
            }
            return Err(e);
        },
    }
    proof {
        assert(cw.take(8 + 2 * c.claims@.len() as int + c.non_revocation_proof.siblings@.len() as int) =~= cw);
    }
    Ok(())
}

/// `credentials`: the variable-length repeated records, cursor-driven.
/// On success the returned cursor equals `start` plus the sum of all
/// credential strides, `6 + 34 + 2 * num_claims` each.
pub fn encode_credentials(w: &mut WitnessMap, creds: &Vec<Credential>, start: u32) -> (r: Result<
    u64,
    EncodeError,
>)
    requires
        old(w).wf(),
    ensures
        final(w).wf(),
        r matches Ok(cur) ==> creds_hex_ok(creds@) && creds_capacity_ok(creds@) && (start as nat)
            + strides_sum(creds@) <= 0x1_0000_0000 && final(w)@ == old(w)@ + creds_writes(
            creds@,
            start as nat,
        ) && cur as nat == start as nat + strides_sum(creds@),
        r matches Err(e) ==> (match e {
            EncodeError::MalformedHex(_) => !creds_hex_ok(creds@),
            EncodeError::CapacityExceeded(_) => !creds_capacity_ok(creds@),
            EncodeError::IndexOverflow => (start as nat) + strides_sum(creds@) > 0x1_0000_0000,
            EncodeError::IndexCollision(_) => !distinct_keys(
                old(w)@ + creds_writes(creds@, start as nat),
            ),
        }),
{
    let n = creds.len();
    let mut cur: u64 = start as u64;
    let mut i: usize = 0;
    while i < n
        invariant
            old(w).wf(),
            w.wf(),
            n == creds@.len(),
            i <= n,
            cur as nat == start as nat + strides_sum(creds@.take(i as int)),
            cur <= 0x1_0000_0000,
            w@ == old(w)@ + creds_writes(creds@.take(i as int), start as nat),
            forall|k: int| 0 <= k < i ==> cred_hex_ok(#[trigger] creds@[k]),
            forall|k: int| 0 <= k < i ==> cred_capacity_ok(#[trigger] creds@[k]),
        decreases n - i,
    {
        let cred = &creds[i];
        let ncl = cred.claims.len();
        let nsb = cred.non_revocation_proof.siblings.len();
        if nsb > MAX_SIBLINGS as usize {
            return Err(EncodeError::CapacityExceeded(i));
        }
        if (cur as u128) + 40 + 2 * (ncl as u128) > 0x1_0000_0000u128 {
            proof {
                lemma_strides_step(creds@, i as int);
                lemma_strides_mono(creds@, i as int + 1);
            }
            return Err(EncodeError::IndexOverflow);
        }
        let ghost taken = creds_writes(creds@.take(i as int), start as nat);
        match encode_credential(w, cred, cur as u32, i) {
            Ok(()) => {
                proof {
                    lemma_creds_step(creds@, start as nat, i as int);
                    assert(w@ =~= old(w)@ + creds_writes(
                        creds@.take(i as int + 1),
                        start as nat,
                    ));
                }
            },
            Err(e) => {
                proof {
                    if e matches EncodeError::IndexCollision(_) {
                        lemma_creds_step(creds@, start as nat, i as int);
                        let a = old(w)@ + taken;
                        let b = cred_writes(
                            creds@[i as int],
                            start as nat + strides_sum(creds@.take(i as int)),
                        );
                        assert(a + b =~= old(w)@ + creds_writes(
                            creds@.take(i as int + 1),
                            start as nat,
                        ));
                        if distinct_keys(old(w)@ + creds_writes(creds@, start as nat)) {
                            lemma_creds_distinct_take(old(w)@, creds@, start as nat, i as int + 1);
                        }
                    }
                }
                return Err(e);
            },
        }
        cur = cur + 40 + 2 * (ncl as u64);
        proof {
            lemma_strides_step(creds@, i as int);
        }
        i += 1;
    }
    proof {
        assert(creds@.take(n as int) =~= creds@);
    }
    Ok(cur)
}

// ---------------------------------------------------------------------------
// The whole pass.
// ---------------------------------------------------------------------------

proof fn lemma_layout_step(input: Input, params: Seq<LayoutParam>, k: int)
    requires
        0 <= k < params.len(),
    ensures
        layout_writes(input, params.take(k + 1)) == layout_writes(input, params.take(k))
            + seg_writes(input, params[k].name@, params[k].start as nat),
{
    let t = params.take(k + 1);
    assert(t.drop_last() =~= params.take(k));
    assert(t.last() == params[k]);
}

proof fn lemma_layout_distinct_take(input: Input, params: Seq<LayoutParam>, k: int)
    requires
        0 <= k <= params.len(),
        distinct_keys(layout_writes(input, params)),
    ensures
        distinct_keys(layout_writes(input, params.take(k))),
    decreases params.len() - k,
{
    if k == params.len() {
        assert(params.take(k) =~= params);
    } else {
        lemma_layout_distinct_take(input, params, k + 1);
        lemma_layout_step(input, params, k);
        let a = layout_writes(input, params.take(k));
        let b = seg_writes(input, params[k].name@, params[k].start as nat);
        assert(layout_writes(input, params.take(k + 1)) =~= a + b);
        lemma_distinct_keys_prefix(a, b);
    }
}

/// Builds the complete witness array for `input` under `layout`.
///
/// Deterministic and atomic: on success the result is exactly the write
/// sequence `layout_writes(input, layout.params)`; on any malformed value,
/// capacity overrun, index overflow or index collision a typed error is
/// returned and no witness array is produced.  Layout names the encoder does
/// not recognize are skipped without error.
pub fn encode(input: &Input, layout: &Layout) -> (r: Result<WitnessMap, EncodeError>)
    ensures
        r is Ok <==> encode_ok(*input, layout.params@),
        r matches Ok(w) ==> w.wf() && w@ == layout_writes(*input, layout.params@),
        r matches Err(e) ==> (match e {
            EncodeError::MalformedHex(_) => exists|i: int|
                0 <= i < layout.params@.len() && !seg_hex_ok(
                    *input,
                    (#[trigger] layout.params@[i]).name@,
                ),
            EncodeError::IndexOverflow => exists|i: int|
                0 <= i < layout.params@.len() && !seg_fits(
                    *input,
                    (#[trigger] layout.params@[i]).name@,
                    layout.params@[i].start as nat,
                ),
            EncodeError::CapacityExceeded(_) => exists|i: int|
                0 <= i < layout.params@.len() && !seg_capacity_ok(
                    *input,
                    (#[trigger] layout.params@[i]).name@,
                ),
            EncodeError::IndexCollision(_) => !distinct_keys(
                layout_writes(*input, layout.params@),
            ),
        }),
{
    let mut w = WitnessMap::new();
    proof {
        assert(w@ =~= layout_writes(*input, layout.params@.take(0)));
    }
    let n = layout.params.len();
    let mut k: usize = 0;
    while k < n
        invariant
            n == layout.params@.len(),
            k <= n,
            w.wf(),
            w@ == layout_writes(*input, layout.params@.take(k as int)),
            forall|i: int|
                0 <= i < k ==> seg_ok(
                    *input,
                    (#[trigger] layout.params@[i]).name@,
                    layout.params@[i].start as nat,
                ),
        decreases n - k,
    {
        let ghost prev = w@;
        let ghost pk = layout.params@[k as int];
        let name = layout.params[k].name.as_str();
        let start = layout.params[k].start;
        let res: Result<(), EncodeError> = if str_eq(name, "proving_time") {
            encode_proving_time(&mut w, input.proving_time, start)
        } else if str_eq(name, "revocation_roots") {
            encode_revocation_roots(&mut w, &input.revocation_roots, start)
        } else if str_eq(name, "public_keys") {
            encode_public_keys(&mut w, &input.public_keys, start)
        } else if str_eq(name, "criteria") {
            encode_criteria(&mut w, &input.criteria, start)
        } else if str_eq(name, "credentials") {
            match encode_credentials(&mut w, &input.credentials, start) {
                Ok(_) => Ok(()),
                Err(e) => Err(e),
            }
        } else {
            Ok(())
        };
        proof {
            assert(seg_writes(*input, pk.name@, pk.start as nat) == seg_writes(
                *input,
                name@,
                start as nat,
            ));
        }
        match res {
            Ok(()) => {
                proof {
                    lemma_layout_step(*input, layout.params@, k as int);
                    assert(w@ =~= layout_writes(*input, layout.params@.take(k as int + 1)));
                    assert(seg_ok(*input, pk.name@, pk.start as nat));
                }
            },
            Err(e) => {
                proof {
                    lemma_layout_step(*input, layout.params@, k as int);
                    if e matches EncodeError::IndexCollision(_) {
                        assert(prev + seg_writes(*input, pk.name@, pk.start as nat)
                            =~= layout_writes(*input, layout.params@.take(k as int + 1)));
                        if distinct_keys(layout_writes(*input, layout.params@)) {
                            lemma_layout_distinct_take(*input, layout.params@, k as int + 1);
                        }
                        assert(!encode_ok(*input, layout.params@));
                    } else {
                        assert(!seg_ok(*input, pk.name@, pk.start as nat));
                        assert(!segs_ok(*input, layout.params@));
                        assert(!encode_ok(*input, layout.params@));
                    }
                }
                return Err(e);
            },
        }
        k += 1;
    }
    proof {
        assert(layout.params@.take(n as int) =~= layout.params@);
        w.lemma_wf_distinct();
    }
    Ok(w)
}

// ---------------------------------------------------------------------------
// Stated laws.
// ---------------------------------------------------------------------------

/// A layout name the encoder does not recognize contributes no writes and
/// can never make an encoding pass fail: it is skipped, by explicit policy.
pub proof fn lemma_unknown_name_ignored(input: Input, name: Seq<char>, start: nat)
    requires
        name != "proving_time"@,
        name != "revocation_roots"@,
        name != "public_keys"@,
        name != "criteria"@,
        name != "credentials"@,
    ensures
        seg_writes(input, name, start) == Seq::<(nat, nat)>::empty(),
        seg_ok(input, name, start),
{
}

/// Encoding is deterministic: two witness arrays produced from the same
/// input and the same layout carry exactly the same writes, index for index
/// and value for value.  With every stored element canonical, equal values
/// also have equal digit vectors, so the arrays are identical bit for bit.
pub proof fn lemma_encode_deterministic(
    input: Input,
    params: Seq<LayoutParam>,
    w1: WitnessMap,
    w2: WitnessMap,
)
    requires
        w1.wf(),
        w2.wf(),
        w1@ == layout_writes(input, params),
        w2@ == layout_writes(input, params),
    ensures
        w1@ == w2@,
{
}

} // verus!
