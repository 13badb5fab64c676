//! The update codec: a canonical byte envelope for [`Update`] values.
//!
//! An update is carried as a fixed-shape object,
//! `{"update_id":N,"<variant>":{"chat":{"id":M}}}`, where `N` is the
//! platform's update identifier in canonical decimal (no leading zeros),
//! `<variant>` names the payload variant, and `M` is the source-chat
//! identifier (canonical decimal, optionally negative).  `spec_encode`
//! defines the canonical serialization; `spec_parse` defines, byte for byte,
//! what [`decode`] accepts and which error it reports otherwise.

use vstd::prelude::*;

use crate::update::{DecodeError, Update, UpdateKind};

verus! {

/// ASCII decimal digit.
pub open spec fn is_digit(b: u8) -> bool {
    48 <= b && b <= 57
}

/// Bytes a variant key may consist of: lower-case ASCII letters and `_`.
pub open spec fn is_key_byte(b: u8) -> bool {
    (97 <= b && b <= 122) || b == 95
}

/// The envelope up to the update identifier: `{"update_id":`.
pub open spec fn env_head() -> Seq<u8> {
    seq![123u8, 34u8, 117u8, 112u8, 100u8, 97u8, 116u8, 101u8, 95u8, 105u8, 100u8, 34u8, 58u8]
}

/// The separator before the variant key: `,"`.
pub open spec fn env_sep() -> Seq<u8> {
    seq![44u8, 34u8]
}

/// The envelope between the variant key and the chat identifier:
/// `":{"chat":{"id":`.
pub open spec fn env_chat() -> Seq<u8> {
    seq![34u8, 58u8, 123u8, 34u8, 99u8, 104u8, 97u8, 116u8, 34u8, 58u8, 123u8, 34u8, 105u8,
        100u8, 34u8, 58u8]
}

/// The closing braces of the envelope: `}}}`.
pub open spec fn env_tail() -> Seq<u8> {
    seq![125u8, 125u8, 125u8]
}

/// The canonical key of each payload variant.
pub open spec fn kind_key(k: UpdateKind) -> Seq<u8> {
    match k {
        UpdateKind::Message => seq![109u8, 101u8, 115u8, 115u8, 97u8, 103u8, 101u8],
        UpdateKind::EditedMessage => seq![101u8, 100u8, 105u8, 116u8, 101u8, 100u8, 95u8, 109u8,
            101u8, 115u8, 115u8, 97u8, 103u8, 101u8],
        UpdateKind::CallbackQuery => seq![99u8, 97u8, 108u8, 108u8, 98u8, 97u8, 99u8, 107u8,
            95u8, 113u8, 117u8, 101u8, 114u8, 121u8],
    }
}

/// The variant a key names, if the pipeline routes it.
pub open spec fn key_kind(key: Seq<u8>) -> Option<UpdateKind> {
    if key == kind_key(UpdateKind::Message) {
        Some(UpdateKind::Message)
    } else if key == kind_key(UpdateKind::EditedMessage) {
        Some(UpdateKind::EditedMessage)
    } else if key == kind_key(UpdateKind::CallbackQuery) {
        Some(UpdateKind::CallbackQuery)
    } else {
        None
    }
}

/// A syntactically acceptable variant key: a nonempty run of key bytes.
pub open spec fn is_variant_key(key: Seq<u8>) -> bool {
    key.len() >= 1 && forall|t: int| 0 <= t < key.len() ==> is_key_byte(key[t])
}

/// Canonical decimal digits of `n`, most significant first, no leading zeros.
pub open spec fn digits_of(n: nat) -> Seq<u8>
    decreases n,
{
    if n < 10 {
        seq![(48 + n) as u8]
    } else {
        digits_of(n / 10) + seq![(48 + n % 10) as u8]
    }
}

/// Canonical decimal digits of a signed value: a `-` sign for negative
/// values, never `-0`.
pub open spec fn int_digits_of(m: int) -> Seq<u8> {
    if m < 0 {
        seq![45u8] + digits_of((-m) as nat)
    } else {
        digits_of(m as nat)
    }
}

/// The numeric value of a digit sequence, most significant digit first.
pub open spec fn val_of(s: Seq<u8>) -> int
    decreases s.len(),
{
    if s.len() == 0 {
        0
    } else {
        val_of(s.drop_last()) * 10 + (s.last() - 48)
    }
}

/// A full envelope around arbitrary parts: identifier, variant key, chat.
pub open spec fn envelope(id: u64, key: Seq<u8>, chat: i64) -> Seq<u8> {
    env_head() + digits_of(id as nat) + env_sep() + key + env_chat() + int_digits_of(
        chat as int,
    ) + env_tail()
}

/// The canonical serialization of an update.
pub open spec fn spec_encode(u: Update) -> Seq<u8> {
    envelope(u.update_id, kind_key(u.kind), u.chat_id)
}

// ---------------------------------------------------------------------------
// The specification-level parser.  `spec_parse` is the grammar of the
// envelope: `decode` returns exactly what it prescribes.
// ---------------------------------------------------------------------------

/// Consume a literal prefix, or fail.
pub open spec fn sp_lit(b: Seq<u8>, lit: Seq<u8>) -> Option<Seq<u8>> {
    if lit.len() <= b.len() && b.subrange(0, lit.len() as int) == lit {
        Some(b.skip(lit.len() as int))
    } else {
        None
    }
}

/// Split off the maximal leading run of decimal digits.
pub open spec fn sp_digits(b: Seq<u8>) -> (Seq<u8>, Seq<u8>)
    decreases b.len(),
{
    if b.len() > 0 && is_digit(b[0]) {
        let r = sp_digits(b.skip(1));
        (seq![b[0]] + r.0, r.1)
    } else {
        (Seq::<u8>::empty(), b)
    }
}

/// Split off the maximal leading run of variant-key bytes.
pub open spec fn sp_keyrun(b: Seq<u8>) -> (Seq<u8>, Seq<u8>)
    decreases b.len(),
{
    if b.len() > 0 && is_key_byte(b[0]) {
        let r = sp_keyrun(b.skip(1));
        (seq![b[0]] + r.0, r.1)
    } else {
        (Seq::<u8>::empty(), b)
    }
}

/// Consume a canonical unsigned decimal that fits in `u64`.
pub open spec fn sp_u64(b: Seq<u8>) -> Option<(u64, Seq<u8>)> {
    let (run, rest) = sp_digits(b);
    if run.len() >= 1 && (run[0] != 48 || run.len() == 1) && val_of(run) <= u64::MAX {
        Some((val_of(run) as u64, rest))
    } else {
        None
    }
}

/// Consume a canonical signed decimal that fits in `i64`.
pub open spec fn sp_i64(b: Seq<u8>) -> Option<(i64, Seq<u8>)> {
    if b.len() > 0 && b[0] == 45 {
        let (run, rest) = sp_digits(b.skip(1));
        if run.len() >= 1 && (run[0] != 48 || run.len() == 1) && 1 <= val_of(run) && val_of(run)
            <= 0x8000_0000_0000_0000 {
            Some(((-val_of(run)) as i64, rest))
        } else {
            None
        }
    } else {
        let (run, rest) = sp_digits(b);
        if run.len() >= 1 && (run[0] != 48 || run.len() == 1) && val_of(run) <= i64::MAX {
            Some((val_of(run) as i64, rest))
        } else {
            None
        }
    }
}

/// What `decode` returns on a body `b`: the unique update whose canonical
/// envelope is `b`, `UnsupportedVariant` for an otherwise well-formed
/// envelope with an unrouted variant key, and `Malformed` for everything
/// else.
pub open spec fn spec_parse(b: Seq<u8>) -> Result<Update, DecodeError> {
    match sp_lit(b, env_head()) {
        None => Err(DecodeError::Malformed),
        Some(b1) => match sp_u64(b1) {
            None => Err(DecodeError::Malformed),
            Some((id, b2)) => match sp_lit(b2, env_sep()) {
                None => Err(DecodeError::Malformed),
                Some(b3) => {
                    let (key, b4) = sp_keyrun(b3);
                    if key.len() == 0 {
                        Err(DecodeError::Malformed)
                    } else {
                        match sp_lit(b4, env_chat()) {
                            None => Err(DecodeError::Malformed),
                            Some(b5) => match sp_i64(b5) {
                                None => Err(DecodeError::Malformed),
                                Some((chat, b6)) => match sp_lit(b6, env_tail()) {
                                    None => Err(DecodeError::Malformed),
                                    Some(b7) => if b7.len() != 0 {
                                        Err(DecodeError::Malformed)
                                    } else {
                                        match key_kind(key) {
                                            Some(k) => Ok(
                                                Update { update_id: id, chat_id: chat, kind: k },
                                            ),
                                            None => Err(DecodeError::UnsupportedVariant),
                                        }
                                    },
                                },
                            },
                        }
                    }
                },
            },
        },
    }
}

// ---------------------------------------------------------------------------
// Encoding.
// ---------------------------------------------------------------------------

/// Append a copy of `piece` to `out`.
fn push_seq(out: &mut Vec<u8>, piece: &Vec<u8>)
    ensures
        final(out)@ == old(out)@ + piece@,
{
    let mut j: usize = 0;
    proof {
        assert(out@ =~= out@ + piece@.subrange(0, 0));
    }
    while j < piece.len()
        invariant
            j <= piece@.len(),
            out@ == old(out)@ + piece@.subrange(0, j as int),
        decreases piece@.len() - j,
    {
        out.push(piece[j]);
        j += 1;
        proof {
            assert(out@ =~= old(out)@ + piece@.subrange(0, j as int));
        }
    }
    proof {
        assert(piece@.subrange(0, piece@.len() as int) =~= piece@);
    }
}

/// The bytes of `env_head()`.
fn lit_head() -> (v: Vec<u8>)
    ensures
        v@ == env_head(),
{
    let mut v: Vec<u8> = Vec::new();
    v.push(123);
    v.push(34);
    v.push(117);
    v.push(112);
    v.push(100);
    v.push(97);
    v.push(116);
    v.push(101);
    v.push(95);
    v.push(105);
    v.push(100);
    v.push(34);
    v.push(58);
    proof {
        assert(v@ =~= env_head());
    }
    v
}

/// The bytes of `env_sep()`.
fn lit_sep() -> (v: Vec<u8>)
    ensures
        v@ == env_sep(),
{
    let mut v: Vec<u8> = Vec::new();
    v.push(44);
    v.push(34);
    proof {
        assert(v@ =~= env_sep());
    }
    v
}

/// The bytes of `env_chat()`.
fn lit_chat() -> (v: Vec<u8>)
    ensures
        v@ == env_chat(),
{
    let mut v: Vec<u8> = Vec::new();
    v.push(34);
    v.push(58);
    v.push(123);
    v.push(34);
    v.push(99);
    v.push(104);
    v.push(97);
    v.push(116);
    v.push(34);
    v.push(58);
    v.push(123);
    v.push(34);
    v.push(105);
    v.push(100);
    v.push(34);
    v.push(58);
    proof {
        assert(v@ =~= env_chat());
    }
    v
}

/// The bytes of `env_tail()`.
fn lit_tail() -> (v: Vec<u8>)
    ensures
        v@ == env_tail(),
{
    let mut v: Vec<u8> = Vec::new();
    v.push(125);
    v.push(125);
    v.push(125);
    proof {
        assert(v@ =~= env_tail());
    }
    v
}

/// The bytes of `kind_key(k)`.
fn lit_kind(k: UpdateKind) -> (v: Vec<u8>)
    ensures
        v@ == kind_key(k),
{
    let mut v: Vec<u8> = Vec::new();
    match k {
        UpdateKind::Message => {
            v.push(109);
            v.push(101);
            v.push(115);
            v.push(115);
            v.push(97);
            v.push(103);
            v.push(101);
        },
        UpdateKind::EditedMessage => {
            v.push(101);
            v.push(100);
            v.push(105);
            v.push(116);
            v.push(101);
            v.push(100);
            v.push(95);
            v.push(109);
            v.push(101);
            v.push(115);
            v.push(115);
            v.push(97);
            v.push(103);
            v.push(101);
        },
        UpdateKind::CallbackQuery => {
            v.push(99);
            v.push(97);
            v.push(108);
            v.push(108);
            v.push(98);
            v.push(97);
            v.push(99);
            v.push(107);
            v.push(95);
            v.push(113);
            v.push(117);
            v.push(101);
            v.push(114);
            v.push(121);
        },
    }
    proof {
        assert(v@ =~= kind_key(k));
    }
    v
}

/// Append the canonical decimal digits of `n`.
fn push_u64(out: &mut Vec<u8>, n: u64)
    ensures
        final(out)@ == old(out)@ + digits_of(n as nat),
    decreases n,
{
    if n < 10 {
        out.push((48 + n) as u8);
        proof {
            assert(out@ =~= old(out)@ + digits_of(n as nat));
        }
    } else {
        push_u64(out, n / 10);
        out.push((48 + n % 10) as u8);
        proof {
            assert(out@ =~= old(out)@ + digits_of(n as nat));
        }
    }
}

/// Append the canonical signed decimal digits of `m`.
fn push_i64(out: &mut Vec<u8>, m: i64)
    ensures
        final(out)@ == old(out)@ + int_digits_of(m as int),
{
    if m < 0 {
        out.push(45);
        let mag: u64 = (-(m as i128)) as u64;
        proof {
            assert(mag as nat == (-(m as int)) as nat);
        }
        push_u64(out, mag);
        proof {
            assert(out@ =~= old(out)@ + int_digits_of(m as int));
        }
    } else {
        push_u64(out, m as u64);
    }
}

// ---------------------------------------------------------------------------
// Bridges between positions in a byte vector and the consumption-style
// specification parser.
// ---------------------------------------------------------------------------

/// `lit` occurs in `b` at position `i`.
pub open spec fn sub_at(b: Seq<u8>, i: int, lit: Seq<u8>) -> bool {
    0 <= i && i + lit.len() <= b.len() && b.subrange(i, i + lit.len()) == lit
}

proof fn lemma_skip_subrange(b: Seq<u8>, i: int, l: int)
    requires
        0 <= i,
        0 <= l,
        i + l <= b.len(),
    ensures
        b.skip(i).subrange(0, l) == b.subrange(i, i + l),
{
    assert(b.skip(i).subrange(0, l) =~= b.subrange(i, i + l));
}

proof fn lemma_skip_skip(b: Seq<u8>, i: int, l: int)
    requires
        0 <= i,
        0 <= l,
        i + l <= b.len(),
    ensures
        b.skip(i).skip(l) == b.skip(i + l),
{
    assert(b.skip(i).skip(l) =~= b.skip(i + l));
}

/// `sp_lit` on the tail of `b` starting at `i`, decided by `sub_at`.
proof fn lemma_lit_at(b: Seq<u8>, i: int, lit: Seq<u8>)
    requires
        0 <= i <= b.len(),
    ensures
        sub_at(b, i, lit) ==> sp_lit(b.skip(i), lit) == Some(b.skip(i + lit.len())),
        !sub_at(b, i, lit) ==> sp_lit(b.skip(i), lit) is None,
{
    if sub_at(b, i, lit) {
        lemma_skip_subrange(b, i, lit.len() as int);
        lemma_skip_skip(b, i, lit.len() as int);
    } else {
        if lit.len() <= b.len() - i {
            lemma_skip_subrange(b, i, lit.len() as int);
        }
    }
}

/// A maximal digit run of length `k` determines `sp_digits`.
proof fn lemma_run_split(s: Seq<u8>, k: int)
    requires
        0 <= k <= s.len(),
        forall|t: int| 0 <= t < k ==> is_digit(s[t]),
        k == s.len() || !is_digit(s[k]),
    ensures
        sp_digits(s) == (s.subrange(0, k), s.skip(k)),
    decreases k,
{
    if k == 0 {
        assert(s.subrange(0, 0) =~= Seq::<u8>::empty());
        assert(s.skip(0) =~= s);
    } else {
        assert(is_digit(s[0]));
        assert forall|t: int| 0 <= t < k - 1 implies is_digit(s.skip(1)[t]) by {
            assert(s.skip(1)[t] == s[t + 1]);
        }
        if k - 1 < s.skip(1).len() {
            assert(s.skip(1)[k - 1] == s[k]);
        }
        lemma_run_split(s.skip(1), k - 1);
        assert(s.skip(1).subrange(0, k - 1) =~= s.subrange(1, k));
        assert(s.skip(1).skip(k - 1) =~= s.skip(k));
        assert(seq![s[0]] + s.subrange(1, k) =~= s.subrange(0, k));
    }
}

/// A maximal key-byte run of length `k` determines `sp_keyrun`.
proof fn lemma_keyrun_split(s: Seq<u8>, k: int)
    requires
        0 <= k <= s.len(),
        forall|t: int| 0 <= t < k ==> is_key_byte(s[t]),
        k == s.len() || !is_key_byte(s[k]),
    ensures
        sp_keyrun(s) == (s.subrange(0, k), s.skip(k)),
    decreases k,
{
    if k == 0 {
        assert(s.subrange(0, 0) =~= Seq::<u8>::empty());
        assert(s.skip(0) =~= s);
    } else {
        assert(is_key_byte(s[0]));
        assert forall|t: int| 0 <= t < k - 1 implies is_key_byte(s.skip(1)[t]) by {
            assert(s.skip(1)[t] == s[t + 1]);
        }
        if k - 1 < s.skip(1).len() {
            assert(s.skip(1)[k - 1] == s[k]);
        }
        lemma_keyrun_split(s.skip(1), k - 1);
        assert(s.skip(1).subrange(0, k - 1) =~= s.subrange(1, k));
        assert(s.skip(1).skip(k - 1) =~= s.skip(k));
        assert(seq![s[0]] + s.subrange(1, k) =~= s.subrange(0, k));
    }
}

/// The value of a digit sequence is not negative.
proof fn lemma_val_nonneg(s: Seq<u8>)
    requires
        forall|t: int| 0 <= t < s.len() ==> is_digit(s[t]),
    ensures
        val_of(s) >= 0,
    decreases s.len(),
{
    if s.len() > 0 {
        assert forall|t: int| 0 <= t < s.drop_last().len() implies is_digit(s.drop_last()[t]) by {
            assert(s.drop_last()[t] == s[t]);
        }
        lemma_val_nonneg(s.drop_last());
        assert(is_digit(s.last()));
    }
}

/// Extending a digit sequence to the right never decreases its value.
proof fn lemma_val_mono_prefix(s: Seq<u8>, k: int)
    requires
        0 <= k <= s.len(),
        forall|t: int| 0 <= t < s.len() ==> is_digit(s[t]),
    ensures
        val_of(s.subrange(0, k)) <= val_of(s),
    decreases s.len() - k,
{
    if k == s.len() {
        assert(s.subrange(0, k) =~= s);
    } else {
        assert(s.subrange(0, k + 1).drop_last() =~= s.subrange(0, k));
        assert(s.subrange(0, k + 1).last() == s[k]);
        assert forall|t: int| 0 <= t < k implies is_digit(s.subrange(0, k)[t]) by {
            assert(s.subrange(0, k)[t] == s[t]);
        }
        lemma_val_nonneg(s.subrange(0, k));
        assert(is_digit(s[k]));
        assert(val_of(s.subrange(0, k)) <= val_of(s.subrange(0, k + 1)));
        lemma_val_mono_prefix(s, k + 1);
    }
}

/// `val_of` inverts `digits_of`.
proof fn lemma_val_digits_of(n: nat)
    ensures
        val_of(digits_of(n)) == n,
    decreases n,
{
    if n < 10 {
        assert(digits_of(n).drop_last() =~= Seq::<u8>::empty());
        assert(val_of(Seq::<u8>::empty()) == 0);
        assert(digits_of(n).last() == (48 + n) as u8);
    } else {
        lemma_val_digits_of(n / 10);
        assert((digits_of(n / 10) + seq![(48 + n % 10) as u8]).drop_last() =~= digits_of(n / 10));
        assert((digits_of(n / 10) + seq![(48 + n % 10) as u8]).last() == (48 + n % 10) as u8);
        assert((48 + n % 10) as u8 - 48 == n % 10);
    }
}

/// Canonical digit sequences contain only digits and are never empty.
proof fn lemma_digits_of_digits(n: nat)
    ensures
        digits_of(n).len() >= 1,
        forall|t: int| 0 <= t < digits_of(n).len() ==> is_digit(digits_of(n)[t]),
    decreases n,
{
    if n >= 10 {
        lemma_digits_of_digits(n / 10);
        assert forall|t: int| 0 <= t < digits_of(n).len() implies is_digit(digits_of(n)[t]) by {
            if t < digits_of(n / 10).len() {
                assert(digits_of(n)[t] == digits_of(n / 10)[t]);
            } else {
                assert(digits_of(n)[t] == (48 + n % 10) as u8);
            }
        }
    }
}

/// A canonical digit sequence starts with `0` only for the value zero.
proof fn lemma_digits_of_first(n: nat)
    ensures
        n >= 1 ==> digits_of(n)[0] != 48,
    decreases n,
{
    if n >= 10 {
        lemma_digits_of_first(n / 10);
        lemma_digits_of_digits(n / 10);
        assert(digits_of(n)[0] == digits_of(n / 10)[0]);
    }
}

/// Digit sequences in canonical form are exactly the `digits_of` images.
proof fn lemma_canon(s: Seq<u8>)
    requires
        s.len() >= 1,
        forall|t: int| 0 <= t < s.len() ==> is_digit(s[t]),
        s[0] != 48 || s.len() == 1,
    ensures
        val_of(s) >= 0,
        digits_of(val_of(s) as nat) == s,
    decreases s.len(),
{
    lemma_val_nonneg(s);
    if s.len() == 1 {
        assert(s.drop_last() =~= Seq::<u8>::empty());
        assert(s.last() == s[0]);
        assert(val_of(Seq::<u8>::empty()) == 0);
        assert(val_of(s) == s[0] - 48);
        assert(digits_of((s[0] - 48) as nat) =~= s);
    } else {
        let s0 = s.drop_last();
        assert forall|t: int| 0 <= t < s0.len() implies is_digit(s0[t]) by {
            assert(s0[t] == s[t]);
        }
        assert(s0[0] == s[0]);
        lemma_canon(s0);
        let v0 = val_of(s0);
        let d = s.last() - 48;
        assert(is_digit(s.last()));
        if v0 == 0 {
            assert(digits_of(0nat) == seq![48u8]);
            assert(s0[0] == 48);
            assert(false);
        }
        assert(val_of(s) == v0 * 10 + d);
        assert((v0 * 10 + d) / 10 == v0 && (v0 * 10 + d) % 10 == d) by (nonlinear_arith)
            requires
                v0 >= 1,
                0 <= d < 10,
        ;
        assert(val_of(s) >= 10);
        assert(digits_of(val_of(s) as nat) == digits_of(v0 as nat) + seq![(48 + d) as u8]);
        assert((48 + d) as u8 == s.last());
        assert(s0 + seq![s.last()] =~= s);
    }
}

/// Decompose a byte sequence at its maximal leading digit run.
proof fn lemma_sp_digits_shape(b: Seq<u8>)
    ensures
        b == sp_digits(b).0 + sp_digits(b).1,
        sp_digits(b).0.len() + sp_digits(b).1.len() == b.len(),
        forall|t: int| 0 <= t < sp_digits(b).0.len() ==> is_digit(sp_digits(b).0[t]),
        sp_digits(b).1.len() == 0 || !is_digit(sp_digits(b).1[0]),
    decreases b.len(),
{
    if b.len() > 0 && is_digit(b[0]) {
        lemma_sp_digits_shape(b.skip(1));
        let r = sp_digits(b.skip(1));
        assert(b =~= seq![b[0]] + (r.0 + r.1));
        assert(b =~= (seq![b[0]] + r.0) + r.1);
        assert forall|t: int| 0 <= t < sp_digits(b).0.len() implies is_digit(sp_digits(b).0[t]) by {
            if t == 0 {
                assert(sp_digits(b).0[0] == b[0]);
            } else {
                assert(sp_digits(b).0[t] == r.0[t - 1]);
            }
        }
    } else {
        assert(b =~= Seq::<u8>::empty() + b);
    }
}

/// Decompose a byte sequence at its maximal leading key-byte run.
proof fn lemma_sp_keyrun_shape(b: Seq<u8>)
    ensures
        b == sp_keyrun(b).0 + sp_keyrun(b).1,
        sp_keyrun(b).0.len() + sp_keyrun(b).1.len() == b.len(),
        forall|t: int| 0 <= t < sp_keyrun(b).0.len() ==> is_key_byte(sp_keyrun(b).0[t]),
        sp_keyrun(b).1.len() == 0 || !is_key_byte(sp_keyrun(b).1[0]),
    decreases b.len(),
{
    if b.len() > 0 && is_key_byte(b[0]) {
        lemma_sp_keyrun_shape(b.skip(1));
        let r = sp_keyrun(b.skip(1));
        assert(b =~= seq![b[0]] + (r.0 + r.1));
        assert(b =~= (seq![b[0]] + r.0) + r.1);
        assert forall|t: int| 0 <= t < sp_keyrun(b).0.len() implies is_key_byte(
            sp_keyrun(b).0[t],
        ) by {
            if t == 0 {
                assert(sp_keyrun(b).0[0] == b[0]);
            } else {
                assert(sp_keyrun(b).0[t] == r.0[t - 1]);
            }
        }
    } else {
        assert(b =~= Seq::<u8>::empty() + b);
    }
}

// ---------------------------------------------------------------------------
// The codec laws: parsing inverts the canonical serialization, and
// everything that is not a canonical envelope is rejected.
// ---------------------------------------------------------------------------

proof fn seq_assoc(a: Seq<u8>, b: Seq<u8>, c: Seq<u8>)
    ensures
        (a + b) + c == a + (b + c),
{
    assert((a + b) + c =~= a + (b + c));
}

proof fn lemma_sp_lit_prefix(lit: Seq<u8>, rest: Seq<u8>)
    ensures
        sp_lit(lit + rest, lit) == Some(rest),
{
    assert((lit + rest).subrange(0, lit.len() as int) =~= lit);
    assert((lit + rest).skip(lit.len() as int) =~= rest);
}

proof fn lemma_sp_digits_prefix(run: Seq<u8>, rest: Seq<u8>)
    requires
        forall|t: int| 0 <= t < run.len() ==> is_digit(run[t]),
        rest.len() == 0 || !is_digit(rest[0]),
    ensures
        sp_digits(run + rest) == (run, rest),
{
    let s = run + rest;
    assert forall|t: int| 0 <= t < run.len() implies is_digit(s[t]) by {
        assert(s[t] == run[t]);
    }
    if run.len() < s.len() {
        assert(s[run.len() as int] == rest[0]);
    }
    lemma_run_split(s, run.len() as int);
    assert(s.subrange(0, run.len() as int) =~= run);
    assert(s.skip(run.len() as int) =~= rest);
}

proof fn lemma_sp_keyrun_prefix(run: Seq<u8>, rest: Seq<u8>)
    requires
        forall|t: int| 0 <= t < run.len() ==> is_key_byte(run[t]),
        rest.len() == 0 || !is_key_byte(rest[0]),
    ensures
        sp_keyrun(run + rest) == (run, rest),
{
    let s = run + rest;
    assert forall|t: int| 0 <= t < run.len() implies is_key_byte(s[t]) by {
        assert(s[t] == run[t]);
    }
    if run.len() < s.len() {
        assert(s[run.len() as int] == rest[0]);
    }
    lemma_keyrun_split(s, run.len() as int);
    assert(s.subrange(0, run.len() as int) =~= run);
    assert(s.skip(run.len() as int) =~= rest);
}

proof fn lemma_sp_u64_prefix(n: u64, rest: Seq<u8>)
    requires
        rest.len() == 0 || !is_digit(rest[0]),
    ensures
        sp_u64(digits_of(n as nat) + rest) == Some((n, rest)),
{
    lemma_digits_of_digits(n as nat);
    lemma_digits_of_first(n as nat);
    lemma_sp_digits_prefix(digits_of(n as nat), rest);
    lemma_val_digits_of(n as nat);
}

proof fn lemma_sp_i64_prefix(m: i64, rest: Seq<u8>)
    requires
        rest.len() == 0 || (!is_digit(rest[0]) && rest[0] != 45),
    ensures
        sp_i64(int_digits_of(m as int) + rest) == Some((m, rest)),
{
    let s = int_digits_of(m as int) + rest;
    if m < 0 {
        let mag = (-(m as int)) as nat;
        lemma_digits_of_digits(mag);
        lemma_digits_of_first(mag);
        lemma_val_digits_of(mag);
        assert(s[0] == 45);
        seq_assoc(seq![45u8], digits_of(mag), rest);
        assert(s.skip(1) =~= digits_of(mag) + rest);
        lemma_sp_digits_prefix(digits_of(mag), rest);
        assert(val_of(digits_of(mag)) == mag);
        assert(1 <= mag && mag <= 0x8000_0000_0000_0000);
        assert(((-val_of(digits_of(mag))) as i64) == m);
    } else {
        lemma_digits_of_digits(m as nat);
        lemma_digits_of_first(m as nat);
        lemma_val_digits_of(m as nat);
        assert(s[0] == digits_of(m as nat)[0]);
        assert(is_digit(s[0]));
        assert(s[0] != 45);
        lemma_sp_digits_prefix(digits_of(m as nat), rest);
    }
}

proof fn lemma_kind_key_bytes(k: UpdateKind)
    ensures
        kind_key(k).len() >= 1,
        forall|t: int| 0 <= t < kind_key(k).len() ==> is_key_byte(kind_key(k)[t]),
{
}

proof fn lemma_key_kind_of(k: UpdateKind)
    ensures
        key_kind(kind_key(k)) == Some(k),
{
    assert(kind_key(UpdateKind::Message).len() == 7);
    assert(kind_key(UpdateKind::EditedMessage).len() == 14);
    assert(kind_key(UpdateKind::CallbackQuery).len() == 14);
    assert(kind_key(UpdateKind::EditedMessage)[0] == 101);
    assert(kind_key(UpdateKind::CallbackQuery)[0] == 99);
}

/// Completeness over arbitrary envelopes: a well-formed envelope parses
/// to the update it carries when its key names a routed variant, and to
/// `UnsupportedVariant` otherwise.
pub proof fn lemma_envelope_parse(id: u64, key: Seq<u8>, chat: i64)
    requires
        is_variant_key(key),
    ensures
        spec_parse(envelope(id, key, chat)) == (match key_kind(key) {
            Some(k) => Ok::<Update, DecodeError>(Update { update_id: id, chat_id: chat, kind: k }),
            None => Err::<Update, DecodeError>(DecodeError::UnsupportedVariant),
        }),
{
    let h = env_head();
    let d1 = digits_of(id as nat);
    let sep = env_sep();
    let ch = env_chat();
    let d2 = int_digits_of(chat as int);
    let tl = env_tail();
    let b = envelope(id, key, chat);

    let a5 = d2 + tl;
    let a4 = ch + a5;
    let a3 = key + a4;
    let a2 = sep + a3;
    let a1 = d1 + a2;
    assert((h + d1 + sep + key + ch + d2 + tl) =~= h + (d1 + (sep + (key + (ch + (d2 + tl))))))
        by {
        assert(b == ((((((h + d1) + sep) + key) + ch) + d2) + tl));
        seq_assoc((((h + d1) + sep) + key) + ch, d2, tl);
        seq_assoc(((h + d1) + sep) + key, ch, a5);
        seq_assoc((h + d1) + sep, key, a4);
        seq_assoc(h + d1, sep, a3);
        seq_assoc(h, d1, a2);
    }
    assert(b == h + a1);

    lemma_sp_lit_prefix(h, a1);
    assert(sp_lit(b, env_head()) == Some(a1));

    assert(a2[0] == 44) by {
        assert(sep.len() == 2 && sep[0] == 44);
    }
    assert(!is_digit(a2[0]));
    lemma_sp_u64_prefix(id, a2);
    assert(sp_u64(a1) == Some((id, a2)));

    lemma_sp_lit_prefix(sep, a3);
    assert(sp_lit(a2, env_sep()) == Some(a3));

    assert(a4[0] == 34) by {
        assert(ch.len() == 16 && ch[0] == 34);
    }
    assert(!is_key_byte(a4[0]));
    lemma_sp_keyrun_prefix(key, a4);
    assert(sp_keyrun(a3) == (key, a4));
    assert(key.len() >= 1);

    lemma_sp_lit_prefix(ch, a5);
    assert(sp_lit(a4, env_chat()) == Some(a5));

    assert(tl[0] == 125 && !is_digit(tl[0]) && tl[0] != 45);
    lemma_sp_i64_prefix(chat, tl);
    assert(sp_i64(a5) == Some((chat, tl)));

    assert(tl =~= tl + Seq::<u8>::empty());
    lemma_sp_lit_prefix(tl, Seq::<u8>::empty());
    assert(sp_lit(tl, env_tail()) == Some(Seq::<u8>::empty()));
}

/// Round trip: parsing the canonical envelope of any update returns
/// exactly that update.  Together with the contracts of `encode` and
/// `decode` this pins `decode(encode(u)) == Ok(u)` for every update.
pub proof fn lemma_round_trip(u: Update)
    ensures
        spec_parse(spec_encode(u)) == Ok::<Update, DecodeError>(u),
{
    lemma_kind_key_bytes(u.kind);
    lemma_envelope_parse(u.update_id, kind_key(u.kind), u.chat_id);
    lemma_key_kind_of(u.kind);
}

/// Soundness: parsing returns an update only for its canonical envelope,
/// and `UnsupportedVariant` only for a well-formed envelope around an
/// unrouted variant key.
pub proof fn lemma_parse_sound(b: Seq<u8>)
    ensures
        spec_parse(b) matches Ok(u) ==> b == spec_encode(u),
        spec_parse(b) == Err::<Update, DecodeError>(DecodeError::UnsupportedVariant)
            ==> exists|id: u64, key: Seq<u8>, chat: i64| b == #[trigger] envelope(id, key, chat)
            && is_variant_key(key) && key_kind(key) is None,
{
    if spec_parse(b) is Ok || spec_parse(b) == Err::<Update, DecodeError>(
        DecodeError::UnsupportedVariant,
    ) {
        let h = env_head();
        let b1 = sp_lit(b, h)->Some_0;
        assert(b =~= b.subrange(0, h.len() as int) + b.skip(h.len() as int));
        assert(b == h + b1);

        lemma_sp_digits_shape(b1);
        let run1 = sp_digits(b1).0;
        let b2 = sp_u64(b1)->Some_0.1;
        let id = sp_u64(b1)->Some_0.0;
        lemma_canon(run1);
        assert(b1 == digits_of(id as nat) + b2);

        let b3 = sp_lit(b2, env_sep())->Some_0;
        assert(b2 =~= b2.subrange(0, 2) + b2.skip(2));
        assert(b2 == env_sep() + b3);

        lemma_sp_keyrun_shape(b3);
        let key = sp_keyrun(b3).0;
        let b4 = sp_keyrun(b3).1;
        assert(b3 == key + b4);

        let b5 = sp_lit(b4, env_chat())->Some_0;
        assert(b4 =~= b4.subrange(0, 16) + b4.skip(16));
        assert(b4 == env_chat() + b5);

        let chat = sp_i64(b5)->Some_0.0;
        let b6 = sp_i64(b5)->Some_0.1;
        if b5.len() > 0 && b5[0] == 45 {
            lemma_sp_digits_shape(b5.skip(1));
            let run2 = sp_digits(b5.skip(1)).0;
            lemma_canon(run2);
            let v = val_of(run2);
            assert(run2 == digits_of(v as nat));
            assert(chat as int == -v);
            assert(b5 =~= seq![b5[0]] + b5.skip(1));
            seq_assoc(seq![45u8], run2, b6);
            assert(b5 == (seq![45u8] + digits_of(v as nat)) + b6);
            assert(int_digits_of(chat as int) == seq![45u8] + digits_of(v as nat));
        } else {
            lemma_sp_digits_shape(b5);
            let run2 = sp_digits(b5).0;
            lemma_canon(run2);
            assert(b5 == digits_of(chat as nat) + b6);
            assert(int_digits_of(chat as int) == digits_of(chat as nat));
        }
        assert(b5 == int_digits_of(chat as int) + b6);

        let b7 = sp_lit(b6, env_tail())->Some_0;
        assert(b6 =~= b6.subrange(0, 3) + b6.skip(3));
        assert(b7.len() == 0);
        assert(b6 =~= env_tail());

        let d1 = digits_of(id as nat);
        let sep = env_sep();
        let ch = env_chat();
        let d2 = int_digits_of(chat as int);
        let tl = env_tail();
        assert(b == h + (d1 + (sep + (key + (ch + (d2 + tl))))));
        assert(envelope(id, key, chat) =~= h + (d1 + (sep + (key + (ch + (d2 + tl)))))) by {
            seq_assoc((((h + d1) + sep) + key) + ch, d2, tl);
            seq_assoc(((h + d1) + sep) + key, ch, d2 + tl);
            seq_assoc((h + d1) + sep, key, ch + (d2 + tl));
            seq_assoc(h + d1, sep, key + (ch + (d2 + tl)));
            seq_assoc(h, d1, sep + (key + (ch + (d2 + tl))));
        }
        assert(b == envelope(id, key, chat));
        assert(key.len() >= 1);
        assert(is_variant_key(key));

        if spec_parse(b) is Ok {
            let u = spec_parse(b)->Ok_0;
            assert(key_kind(key) == Some(u.kind));
            assert(key == kind_key(u.kind));
            assert(u.update_id == id && u.chat_id == chat);
            assert(b == spec_encode(u));
        } else {
            assert(key_kind(key) is None);
        }
    }
}

/// `Malformed` comes exactly on the bodies that are neither the
/// canonical envelope of an update nor a well-formed envelope around an
/// unrouted variant key.
pub proof fn lemma_malformed_characterized(b: Seq<u8>)
    ensures
        spec_parse(b) == Err::<Update, DecodeError>(DecodeError::Malformed) <==> ((forall|
            u: Update,
        | b != #[trigger] spec_encode(u)) && !(exists|id: u64, key: Seq<u8>, chat: i64| b
            == #[trigger] envelope(id, key, chat) && is_variant_key(key) && key_kind(
            key,
        ) is None)),
{
    lemma_parse_sound(b);
    if spec_parse(b) == Err::<Update, DecodeError>(DecodeError::Malformed) {
        assert forall|u: Update| b != #[trigger] spec_encode(u) by {
            if b == spec_encode(u) {
                lemma_round_trip(u);
            }
        }
        if exists|id: u64, key: Seq<u8>, chat: i64| b == #[trigger] envelope(id, key, chat)
            && is_variant_key(key) && key_kind(key) is None {
            let (id, key, chat) = choose|id: u64, key: Seq<u8>, chat: i64| b == #[trigger] envelope(
                id,
                key,
                chat,
            ) && is_variant_key(key) && key_kind(key) is None;
            lemma_envelope_parse(id, key, chat);
            assert(false);
        }
    } else {
        match spec_parse(b) {
            Ok(u) => {
                assert(b == spec_encode(u));
            },
            Err(e) => {
                assert(e == DecodeError::UnsupportedVariant);
            },
        }
    }
}

/// Every payload that is not the canonical envelope of some update is
/// rejected with an error; `decode` is total, so it neither panics nor
/// blocks on such input.
pub proof fn lemma_malformed_rejected(b: Seq<u8>)
    requires
        forall|u: Update| b != #[trigger] spec_encode(u),
    ensures
        spec_parse(b) is Err,
{
    lemma_parse_sound(b);
    if spec_parse(b) is Ok {
        let u = spec_parse(b)->Ok_0;
        assert(b == spec_encode(u));
        assert(false);
    }
}

// ---------------------------------------------------------------------------
// Executable scanners.
// ---------------------------------------------------------------------------

/// Does `lit` occur in `b` at position `i`?
fn match_at(b: &Vec<u8>, i: usize, lit: &Vec<u8>) -> (r: bool)
    ensures
        r == sub_at(b@, i as int, lit@),
{
    if i > b.len() || b.len() - i < lit.len() {
        return false;
    }
    let mut j: usize = 0;
    while j < lit.len()
        invariant
            j <= lit@.len(),
            i + lit@.len() <= b@.len(),
            b@.len() <= usize::MAX,
            forall|t: int| 0 <= t < j ==> b@[i + t] == lit@[t],
        decreases lit@.len() - j,
    {
        if b[i + j] != lit[j] {
            proof {
                assert(b@.subrange(i as int, i + lit@.len())[j as int] == b@[i + j]);
            }
            return false;
        }
        j += 1;
    }
    proof {
        assert(b@.subrange(i as int, i + lit@.len()) =~= lit@);
    }
    true
}

/// First position at or after `i` that does not hold a decimal digit.
fn scan_digits(b: &Vec<u8>, i: usize) -> (j: usize)
    requires
        i <= b@.len(),
    ensures
        i <= j <= b@.len(),
        forall|t: int| i <= t < j ==> is_digit(b@[t]),
        j == b@.len() || !is_digit(b@[j as int]),
{
    let mut j: usize = i;
    while j < b.len()
        invariant
            i <= j <= b@.len(),
            forall|t: int| i <= t < j ==> is_digit(b@[t]),
        decreases b@.len() - j,
    {
        let c = b[j];
        if !(48 <= c && c <= 57) {
            return j;
        }
        j += 1;
    }
    j
}

/// First position at or after `i` that does not hold a key byte.
fn scan_key(b: &Vec<u8>, i: usize) -> (j: usize)
    requires
        i <= b@.len(),
    ensures
        i <= j <= b@.len(),
        forall|t: int| i <= t < j ==> is_key_byte(b@[t]),
        j == b@.len() || !is_key_byte(b@[j as int]),
{
    let mut j: usize = i;
    while j < b.len()
        invariant
            i <= j <= b@.len(),
            forall|t: int| i <= t < j ==> is_key_byte(b@[t]),
        decreases b@.len() - j,
    {
        let c = b[j];
        if !((97 <= c && c <= 122) || c == 95) {
            return j;
        }
        j += 1;
    }
    j
}

/// The value of the digits at `[i, j)`, unless it exceeds `u64::MAX`.
fn digits_value(b: &Vec<u8>, i: usize, j: usize) -> (r: Option<u64>)
    requires
        i <= j <= b@.len(),
        forall|t: int| i <= t < j ==> is_digit(b@[t]),
    ensures
        match r {
            Some(v) => val_of(b@.subrange(i as int, j as int)) == v,
            None => val_of(b@.subrange(i as int, j as int)) > u64::MAX,
        },
{
    let mut acc: u128 = 0;
    let mut t: usize = i;
    proof {
        assert(b@.subrange(i as int, i as int) =~= Seq::<u8>::empty());
    }
    while t < j
        invariant
            i <= t <= j <= b@.len(),
            forall|t2: int| i <= t2 < j ==> is_digit(b@[t2]),
            acc == val_of(b@.subrange(i as int, t as int)),
            acc <= u64::MAX,
        decreases j - t,
    {
        let d = b[t];
        let acc2: u128 = acc * 10 + ((d - 48) as u128);
        proof {
            assert(b@.subrange(i as int, t + 1).drop_last() =~= b@.subrange(i as int, t as int));
            assert(b@.subrange(i as int, t + 1).last() == b@[t as int]);
        }
        if acc2 > u64::MAX as u128 {
            proof {
                let s = b@.subrange(i as int, j as int);
                assert forall|t2: int| 0 <= t2 < s.len() implies is_digit(s[t2]) by {
                    assert(s[t2] == b@[i + t2]);
                }
                assert(s.subrange(0, t + 1 - i) =~= b@.subrange(i as int, t + 1));
                lemma_val_mono_prefix(s, t + 1 - i);
            }
            return None;
        }
        acc = acc2;
        t += 1;
    }
    Some(acc as u64)
}

/// Parse a canonical `u64` at position `i`, mirroring `sp_u64`.
fn parse_u64_at(b: &Vec<u8>, i: usize) -> (r: Option<(u64, usize)>)
    requires
        i <= b@.len(),
    ensures
        match r {
            Some(p) => i <= p.1 <= b@.len() && sp_u64(b@.skip(i as int)) == Some(
                (p.0, b@.skip(p.1 as int)),
            ),
            None => sp_u64(b@.skip(i as int)) is None,
        },
{
    let j = scan_digits(b, i);
    proof {
        let s = b@.skip(i as int);
        assert forall|t: int| 0 <= t < j - i implies is_digit(s[t]) by {
            assert(s[t] == b@[i + t]);
        }
        if j - i < s.len() {
            assert(s[j - i] == b@[j as int]);
        }
        lemma_run_split(s, j - i);
        lemma_skip_subrange(b@, i as int, j - i);
        lemma_skip_skip(b@, i as int, j - i);
    }
    if j == i {
        return None;
    }
    if b[i] == 48 && j - i > 1 {
        proof {
            assert(b@.subrange(i as int, j as int)[0] == b@[i as int]);
        }
        return None;
    }
    proof {
        assert(b@.subrange(i as int, j as int)[0] == b@[i as int]);
    }
    match digits_value(b, i, j) {
        None => None,
        Some(v) => Some((v, j)),
    }
}

/// Parse a canonical `i64` at position `i`, mirroring `sp_i64`.
fn parse_i64_at(b: &Vec<u8>, i: usize) -> (r: Option<(i64, usize)>)
    requires
        i <= b@.len(),
    ensures
        match r {
            Some(p) => i <= p.1 <= b@.len() && sp_i64(b@.skip(i as int)) == Some(
                (p.0, b@.skip(p.1 as int)),
            ),
            None => sp_i64(b@.skip(i as int)) is None,
        },
{
    let ghost s = b@.skip(i as int);
    if i < b.len() && b[i] == 45 {
        proof {
            assert(s[0] == b@[i as int]);
            lemma_skip_skip(b@, i as int, 1);
        }
        let j = scan_digits(b, i + 1);
        proof {
            let s1 = b@.skip(i + 1);
            assert forall|t: int| 0 <= t < j - (i + 1) implies is_digit(s1[t]) by {
                assert(s1[t] == b@[i + 1 + t]);
            }
            if j - (i + 1) < s1.len() {
                assert(s1[j - (i + 1)] == b@[j as int]);
            }
            lemma_run_split(s1, j - (i + 1));
            lemma_skip_subrange(b@, i + 1, j - (i + 1));
            lemma_skip_skip(b@, i + 1, j - (i + 1));
        }
        if j == i + 1 {
            return None;
        }
        proof {
            assert(b@.subrange(i + 1, j as int)[0] == b@[i + 1]);
        }
        if b[i + 1] == 48 && j - (i + 1) > 1 {
            return None;
        }
        match digits_value(b, i + 1, j) {
            None => None,
            Some(v) => {
                if v == 0 {
                    None
                } else if v > 0x8000_0000_0000_0000u64 {
                    None
                } else {
                    let c: i64 = if v == 0x8000_0000_0000_0000u64 {
                        i64::MIN
                    } else {
                        -(v as i64)
                    };
                    Some((c, j))
                }
            },
        }
    } else {
        proof {
            if s.len() > 0 {
                assert(s[0] == b@[i as int]);
            }
        }
        let j = scan_digits(b, i);
        proof {
            assert forall|t: int| 0 <= t < j - i implies is_digit(s[t]) by {
                assert(s[t] == b@[i + t]);
            }
            if j - i < s.len() {
                assert(s[j - i] == b@[j as int]);
            }
            lemma_run_split(s, j - i);
            lemma_skip_subrange(b@, i as int, j - i);
            lemma_skip_skip(b@, i as int, j - i);
        }
        if j == i {
            return None;
        }
        proof {
            assert(b@.subrange(i as int, j as int)[0] == b@[i as int]);
        }
        if b[i] == 48 && j - i > 1 {
            return None;
        }
        match digits_value(b, i, j) {
            None => None,
            Some(v) => {
                if v > 0x7FFF_FFFF_FFFF_FFFFu64 {
                    None
                } else {
                    Some((v as i64, j))
                }
            },
        }
    }
}

/// Which routed variant, if any, the key at `[p3, p4)` names.
fn classify_key(b: &Vec<u8>, p3: usize, p4: usize) -> (r: Option<UpdateKind>)
    requires
        p3 <= p4 <= b@.len(),
    ensures
        r == key_kind(b@.subrange(p3 as int, p4 as int)),
{
    let ghost key = b@.subrange(p3 as int, p4 as int);
    proof {
        assert(kind_key(UpdateKind::Message).len() == 7);
        assert(kind_key(UpdateKind::EditedMessage).len() == 14);
        assert(kind_key(UpdateKind::CallbackQuery).len() == 14);
    }
    let klen = p4 - p3;
    let mut kind_opt: Option<UpdateKind> = None;
    if klen == 7 {
        let lit_m = lit_kind(UpdateKind::Message);
        if match_at(b, p3, &lit_m) {
            kind_opt = Some(UpdateKind::Message);
        }
    } else if klen == 14 {
        let lit_e = lit_kind(UpdateKind::EditedMessage);
        if match_at(b, p3, &lit_e) {
            kind_opt = Some(UpdateKind::EditedMessage);
        } else {
            let lit_c = lit_kind(UpdateKind::CallbackQuery);
            if match_at(b, p3, &lit_c) {
                kind_opt = Some(UpdateKind::CallbackQuery);
            }
        }
    }
    proof {
        if klen == 7 {
            if sub_at(b@, p3 as int, kind_key(UpdateKind::Message)) {
                assert(key == kind_key(UpdateKind::Message));
            } else {
                assert(key != kind_key(UpdateKind::Message));
            }
        } else if klen == 14 {
            if sub_at(b@, p3 as int, kind_key(UpdateKind::EditedMessage)) {
                assert(key == kind_key(UpdateKind::EditedMessage));
            } else {
                assert(key != kind_key(UpdateKind::EditedMessage));
            }
            if sub_at(b@, p3 as int, kind_key(UpdateKind::CallbackQuery)) {
                assert(key == kind_key(UpdateKind::CallbackQuery));
            } else {
                assert(key != kind_key(UpdateKind::CallbackQuery));
            }
        }
        assert(kind_opt == key_kind(key));
    }
    kind_opt
}

/// Parse a request body into an update, returning exactly what
/// `spec_parse` prescribes.  Total: no input panics or is refused.
#[verifier::rlimit(50)]
pub fn decode(b: &Vec<u8>) -> (r: Result<Update, DecodeError>)
    ensures
        r == spec_parse(b@),
{
    let total = b.len();
    proof {
        assert(env_head().len() == 13);
        assert(env_sep().len() == 2);
        assert(env_chat().len() == 16);
        assert(env_tail().len() == 3);
    }
    let head = lit_head();
    let ok0 = match_at(b, 0, &head);
    proof {
        lemma_lit_at(b@, 0, env_head());
        assert(b@.skip(0) =~= b@);
    }
    if !ok0 {
        return Err(DecodeError::Malformed);
    }
    let p1: usize = 13;
    let r1 = parse_u64_at(b, p1);
    match r1 {
        None => Err(DecodeError::Malformed),
        Some((id, p2)) => {
            let sep = lit_sep();
            let ok2 = match_at(b, p2, &sep);
            proof {
                lemma_lit_at(b@, p2 as int, env_sep());
            }
            if !ok2 {
                return Err(DecodeError::Malformed);
            }
            let p3 = p2 + 2;
            let p4 = scan_key(b, p3);
            proof {
                let s3 = b@.skip(p3 as int);
                assert forall|t: int| 0 <= t < p4 - p3 implies is_key_byte(s3[t]) by {
                    assert(s3[t] == b@[p3 + t]);
                }
                if p4 - p3 < s3.len() {
                    assert(s3[p4 - p3] == b@[p4 as int]);
                }
                lemma_keyrun_split(s3, p4 - p3);
                lemma_skip_subrange(b@, p3 as int, p4 - p3);
                lemma_skip_skip(b@, p3 as int, p4 - p3);
            }
            if p4 == p3 {
                return Err(DecodeError::Malformed);
            }
            let ghost key = b@.subrange(p3 as int, p4 as int);
            let kind_opt = classify_key(b, p3, p4);
            let chat_lit = lit_chat();
            let okc = match_at(b, p4, &chat_lit);
            proof {
                lemma_lit_at(b@, p4 as int, env_chat());
            }
            if !okc {
                return Err(DecodeError::Malformed);
            }
            let p5 = p4 + 16;
            let r5 = parse_i64_at(b, p5);
            match r5 {
                None => Err(DecodeError::Malformed),
                Some((chat, p6)) => {
                    let tail = lit_tail();
                    let okt = match_at(b, p6, &tail);
                    proof {
                        lemma_lit_at(b@, p6 as int, env_tail());
                    }
                    if !okt {
                        return Err(DecodeError::Malformed);
                    }
                    let p7 = p6 + 3;
                    if p7 != total {
                        return Err(DecodeError::Malformed);
                    }
                    match kind_opt {
                        Some(k) => Ok(Update { update_id: id, chat_id: chat, kind: k }),
                        None => Err(DecodeError::UnsupportedVariant),
                    }
                },
            }
        },
    }
}

/// Serialize an update into its canonical envelope.
pub fn encode(u: &Update) -> (out: Vec<u8>)
    ensures
        out@ == spec_encode(*u),
{
    let mut out = lit_head();
    push_u64(&mut out, u.update_id);
    let sep = lit_sep();
    push_seq(&mut out, &sep);
    let key = lit_kind(u.kind);
    push_seq(&mut out, &key);
    let chat_lit = lit_chat();
    push_seq(&mut out, &chat_lit);
    push_i64(&mut out, u.chat_id);
    let tail = lit_tail();
    push_seq(&mut out, &tail);
    proof {
        assert(out@ =~= spec_encode(*u));
    }
    out
}

} // verus!
