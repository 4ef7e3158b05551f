use vstd::prelude::*;
use crate::state::PersistedState;
use crate::state::default_state_spec;
use crate::state::default_state;

verus! {

// ---------------------------------------------------------------------------
// Decimal numerals
// ---------------------------------------------------------------------------

/// ASCII decimal digit.
pub open spec fn is_digit(b: u8) -> bool {
    48 <= b <= 57
}

/// The shortest decimal numeral of `n`, as ASCII bytes (no sign, no leading
/// zeros except for the numeral of zero itself).
pub open spec fn dec_spec(n: nat) -> Seq<u8>
    decreases n,
{
    if n < 10 {
        seq![(48 + n) as u8]
    } else {
        dec_spec(n / 10).push((48 + n % 10) as u8)
    }
}

/// The value of a sequence of ASCII digits, most significant first.
pub open spec fn dec_val(s: Seq<u8>) -> nat
    decreases s.len(),
{
    if s.len() == 0 {
        0
    } else {
        dec_val(s.drop_last()) * 10 + (s.last() - 48) as nat
    }
}

/// A numeral is never empty and consists of digits only.
pub proof fn lemma_dec_spec_digits(n: nat)
    ensures
        dec_spec(n).len() >= 1,
        forall|i: int| 0 <= i < dec_spec(n).len() ==> is_digit(#[trigger] dec_spec(n)[i]),
    decreases n,
{
    if n >= 10 {
        lemma_dec_spec_digits(n / 10);
        assert forall|i: int| 0 <= i < dec_spec(n).len() implies is_digit(
            #[trigger] dec_spec(n)[i],
        ) by {
            if i < dec_spec(n / 10).len() {
                assert(dec_spec(n)[i] == dec_spec(n / 10)[i]);
            }
        }
    }
}

/// Appending one digit multiplies the value by ten and adds that digit.
pub proof fn lemma_dec_val_snoc(s: Seq<u8>, x: u8)
    ensures
        dec_val(s.push(x)) == dec_val(s) * 10 + (x - 48) as nat,
{
    assert(s.push(x).drop_last() =~= s);
    assert(s.push(x).last() == x);
}

/// Reading the numeral of `n` back yields `n`.
pub proof fn lemma_dec_val_of_dec_spec(n: nat)
    ensures
        dec_val(dec_spec(n)) == n,
    decreases n,
{
    if n < 10 {
        assert(dec_spec(n).drop_last() =~= Seq::<u8>::empty());
        assert((48 + n) as u8 == 48 + n);
        assert(dec_spec(n).last() == (48 + n) as u8);
        assert(dec_val(dec_spec(n)) == dec_val(Seq::<u8>::empty()) * 10 + ((48 + n) as u8
            - 48) as nat);
    } else {
        lemma_dec_val_of_dec_spec(n / 10);
        lemma_dec_val_snoc(dec_spec(n / 10), (48 + n % 10) as u8);
        assert((48 + n % 10) as u8 == 48 + n % 10);
        assert(dec_val(dec_spec(n)) == dec_val(dec_spec(n / 10)) * 10 + ((48 + n % 10) as u8
            - 48) as nat);
        vstd::arithmetic::div_mod::lemma_fundamental_div_mod(n as int, 10);
        assert(n == (n / 10) * 10 + n % 10);
    }
}

/// Numerals identify their values: equal numerals mean equal numbers.
pub proof fn lemma_dec_spec_injective(a: nat, b: nat)
    requires
        dec_spec(a) == dec_spec(b),
    ensures
        a == b,
{
    lemma_dec_val_of_dec_spec(a);
    lemma_dec_val_of_dec_spec(b);
}

/// The value of a prefix of a digit sequence never exceeds the value of the
/// whole sequence.
pub proof fn lemma_dec_val_prefix_le(s: Seq<u8>, k: int)
    requires
        0 <= k <= s.len(),
        forall|i: int| 0 <= i < s.len() ==> is_digit(#[trigger] s[i]),
    ensures
        dec_val(s.subrange(0, k)) <= dec_val(s),
    decreases s.len(),
{
    if k == s.len() {
        assert(s.subrange(0, k) =~= s);
    } else {
        let t = s.drop_last();
        assert(forall|i: int| 0 <= i < t.len() ==> is_digit(#[trigger] t[i]));
        lemma_dec_val_prefix_le(t, k);
        assert(s.subrange(0, k) =~= t.subrange(0, k));
        assert(dec_val(s) == dec_val(t) * 10 + (s.last() - 48) as nat);
        assert(dec_val(t) * 10 >= dec_val(t));
    }
}

/// The shortest decimal numeral of `n`, computed.
pub fn u64_to_dec(n: u64) -> (v: Vec<u8>)
    ensures
        v@ == dec_spec(n as nat),
    decreases n,
{
    if n < 10 {
        let mut v: Vec<u8> = Vec::new();
        v.push(48 + n as u8);
        proof {
            assert(v@ =~= dec_spec(n as nat));
        }
        v
    } else {
        let mut v = u64_to_dec(n / 10);
        v.push(48 + (n % 10) as u8);
        proof {
            assert(v@ =~= dec_spec(n as nat));
        }
        v
    }
}

// ---------------------------------------------------------------------------
// The record format
// ---------------------------------------------------------------------------

/// The bytes `"online":` — the key of the last-online instant.
pub open spec fn key_online_lit() -> Seq<u8> {
    seq![
        '"' as u8,
        'o' as u8,
        'n' as u8,
        'l' as u8,
        'i' as u8,
        'n' as u8,
        'e' as u8,
        '"' as u8,
        ':' as u8,
    ]
}

/// The bytes `"players":` — the key of the last-players-seen instant.
pub open spec fn key_players_lit() -> Seq<u8> {
    seq![
        '"' as u8,
        'p' as u8,
        'l' as u8,
        'a' as u8,
        'y' as u8,
        'e' as u8,
        'r' as u8,
        's' as u8,
        '"' as u8,
        ':' as u8,
    ]
}

/// A key-value pair for a present instant, nothing for an absent one: an
/// absent field is simply omitted from the record.
pub open spec fn field_spec(key: Seq<u8>, v: Option<u64>) -> Seq<u8> {
    match v {
        Some(t) => key + dec_spec(t as nat),
        None => Seq::<u8>::empty(),
    }
}

/// The separator between the two fields, present only when both are.
pub open spec fn sep_spec(s: PersistedState) -> Seq<u8> {
    if s.last_online_at is Some && s.last_players_seen_at is Some {
        seq![',' as u8]
    } else {
        Seq::<u8>::empty()
    }
}

/// The serialized form of a record: a braced key-value document holding a
/// decimal epoch-second numeral for each present instant.  A record with
/// both fields absent serializes to the empty document.
pub open spec fn ser_spec(s: PersistedState) -> Seq<u8> {
    seq!['{' as u8] + field_spec(key_online_lit(), s.last_online_at) + sep_spec(s) + field_spec(
        key_players_lit(),
        s.last_players_seen_at,
    ) + seq!['}' as u8]
}

/// Append every byte of `src` to `dst`.
pub(crate) fn push_all(dst: &mut Vec<u8>, src: &Vec<u8>)
    ensures
        final(dst)@ == old(dst)@ + src@,
{
    let mut i: usize = 0;
    while i < src.len()
        invariant
            i <= src.len(),
            dst@ == old(dst)@ + src@.subrange(0, i as int),
        decreases src.len() - i,
    {
        dst.push(src[i]);
        proof {
            assert(old(dst)@ + src@.subrange(0, i + 1) =~= (old(dst)@ + src@.subrange(
                0,
                i as int,
            )).push(src@[i as int]));
        }
        i = i + 1;
    }
    proof {
        assert(src@.subrange(0, src.len() as int) =~= src@);
    }
}

/// The bytes of the last-online key, computed.
fn online_key() -> (k: Vec<u8>)
    ensures
        k@ == key_online_lit(),
{
    let mut k: Vec<u8> = Vec::new();
    k.push('"' as u8);
    k.push('o' as u8);
    k.push('n' as u8);
    k.push('l' as u8);
    k.push('i' as u8);
    k.push('n' as u8);
    k.push('e' as u8);
    k.push('"' as u8);
    k.push(':' as u8);
    proof {
        assert(k@ =~= key_online_lit());
    }
    k
}

/// The bytes of the last-players-seen key, computed.
fn players_key() -> (k: Vec<u8>)
    ensures
        k@ == key_players_lit(),
{
    let mut k: Vec<u8> = Vec::new();
    k.push('"' as u8);
    k.push('p' as u8);
    k.push('l' as u8);
    k.push('a' as u8);
    k.push('y' as u8);
    k.push('e' as u8);
    k.push('r' as u8);
    k.push('s' as u8);
    k.push('"' as u8);
    k.push(':' as u8);
    proof {
        assert(k@ =~= key_players_lit());
    }
    k
}

/// Serialize a record to the bytes of its durable form.
pub fn serialize_state(s: &PersistedState) -> (v: Vec<u8>)
    ensures
        v@ == ser_spec(*s),
{
    let mut v: Vec<u8> = Vec::new();
    v.push('{' as u8);
    match s.last_online_at {
        Some(t) => {
            let k = online_key();
            push_all(&mut v, &k);
            let d = u64_to_dec(t);
            push_all(&mut v, &d);
        },
        None => {},
    }
    if s.last_online_at.is_some() && s.last_players_seen_at.is_some() {
        v.push(',' as u8);
    }
    match s.last_players_seen_at {
        Some(t) => {
            let k = players_key();
            push_all(&mut v, &k);
            let d = u64_to_dec(t);
            push_all(&mut v, &d);
        },
        None => {},
    }
    v.push('}' as u8);
    proof {
        assert(v@ =~= ser_spec(*s));
    }
    v
}

} // verus!

verus! {

// ---------------------------------------------------------------------------
// Shapes of serialized records
// ---------------------------------------------------------------------------

/// Serialized form of a record with both fields absent.
pub open spec fn shape_none() -> Seq<u8> {
    seq!['{' as u8, '}' as u8]
}

/// Serialized form of a record holding only the last-online instant.
pub open spec fn shape_online(t: u64) -> Seq<u8> {
    seq!['{' as u8] + key_online_lit() + dec_spec(t as nat) + seq!['}' as u8]
}

/// Serialized form of a record holding only the last-players-seen instant.
pub open spec fn shape_players(t: u64) -> Seq<u8> {
    seq!['{' as u8] + key_players_lit() + dec_spec(t as nat) + seq!['}' as u8]
}

/// Serialized form of a record holding both instants.
pub open spec fn shape_both(t1: u64, t2: u64) -> Seq<u8> {
    seq!['{' as u8] + key_online_lit() + dec_spec(t1 as nat) + seq![',' as u8]
        + key_players_lit() + dec_spec(t2 as nat) + seq!['}' as u8]
}

/// Every record serializes to the shape its present fields select.
pub proof fn lemma_ser_shape(s: PersistedState)
    ensures
        ser_spec(s) == (match (s.last_online_at, s.last_players_seen_at) {
            (None, None) => shape_none(),
            (Some(t), None) => shape_online(t),
            (None, Some(t)) => shape_players(t),
            (Some(t1), Some(t2)) => shape_both(t1, t2),
        }),
{
    match (s.last_online_at, s.last_players_seen_at) {
        (None, None) => {
            assert(ser_spec(s) =~= shape_none());
        },
        (Some(t), None) => {
            assert(ser_spec(s) =~= shape_online(t));
        },
        (None, Some(t)) => {
            assert(ser_spec(s) =~= shape_players(t));
        },
        (Some(t1), Some(t2)) => {
            assert(ser_spec(s) =~= shape_both(t1, t2));
        },
    }
}

/// The numeral of `n` stands at position `i` of `s`, followed by the end of
/// `s` or by a byte that is not a digit — so the numeral is exactly the run
/// of digits that starts at `i`.
pub open spec fn digits_at(s: Seq<u8>, i: int, n: nat) -> bool {
    &&& 0 <= i
    &&& i + dec_spec(n).len() <= s.len()
    &&& s.subrange(i, i + dec_spec(n).len() as int) == dec_spec(n)
    &&& (i + dec_spec(n).len() == s.len() || !is_digit(s[i + dec_spec(n).len() as int]))
}

pub proof fn lemma_shape_none_facts()
    ensures
        shape_none().len() == 2,
        shape_none()[0] == '{' as u8,
        shape_none()[1] == '}' as u8,
{
}

pub proof fn lemma_shape_online_facts(t: u64)
    ensures
        shape_online(t).len() == 11 + dec_spec(t as nat).len(),
        shape_online(t).len() >= 12,
        shape_online(t)[0] == '{' as u8,
        shape_online(t)[1] == '"' as u8,
        shape_online(t)[2] == 'o' as u8,
        shape_online(t).subrange(1, 10) == key_online_lit(),
        digits_at(shape_online(t), 10, t as nat),
        shape_online(t)[10 + dec_spec(t as nat).len() as int] == '}' as u8,
        shape_online(t) == (seq!['{' as u8] + key_online_lit()) + (dec_spec(t as nat)
            + seq!['}' as u8]),
{
    lemma_dec_spec_digits(t as nat);
    assert(shape_online(t).subrange(1, 10) =~= key_online_lit());
    assert(shape_online(t).subrange(10, 10 + dec_spec(t as nat).len() as int) =~= dec_spec(
        t as nat,
    ));
    assert(shape_online(t) =~= (seq!['{' as u8] + key_online_lit()) + (dec_spec(t as nat)
        + seq!['}' as u8]));
}

pub proof fn lemma_shape_players_facts(t: u64)
    ensures
        shape_players(t).len() == 12 + dec_spec(t as nat).len(),
        shape_players(t).len() >= 13,
        shape_players(t)[0] == '{' as u8,
        shape_players(t)[1] == '"' as u8,
        shape_players(t)[2] == 'p' as u8,
        shape_players(t).subrange(1, 11) == key_players_lit(),
        digits_at(shape_players(t), 11, t as nat),
        shape_players(t)[11 + dec_spec(t as nat).len() as int] == '}' as u8,
        shape_players(t) == (seq!['{' as u8] + key_players_lit()) + (dec_spec(t as nat)
            + seq!['}' as u8]),
{
    lemma_dec_spec_digits(t as nat);
    assert(shape_players(t).subrange(1, 11) =~= key_players_lit());
    assert(shape_players(t).subrange(11, 11 + dec_spec(t as nat).len() as int) =~= dec_spec(
        t as nat,
    ));
    assert(shape_players(t) =~= (seq!['{' as u8] + key_players_lit()) + (dec_spec(t as nat)
        + seq!['}' as u8]));
}

pub proof fn lemma_shape_both_facts(t1: u64, t2: u64)
    ensures
        shape_both(t1, t2).len() == 22 + dec_spec(t1 as nat).len() + dec_spec(t2 as nat).len(),
        shape_both(t1, t2).len() >= 24,
        shape_both(t1, t2)[0] == '{' as u8,
        shape_both(t1, t2)[1] == '"' as u8,
        shape_both(t1, t2)[2] == 'o' as u8,
        shape_both(t1, t2).subrange(1, 10) == key_online_lit(),
        digits_at(shape_both(t1, t2), 10, t1 as nat),
        shape_both(t1, t2)[10 + dec_spec(t1 as nat).len() as int] == ',' as u8,
        shape_both(t1, t2).subrange(
            11 + dec_spec(t1 as nat).len() as int,
            21 + dec_spec(t1 as nat).len() as int,
        ) == key_players_lit(),
        digits_at(shape_both(t1, t2), 21 + dec_spec(t1 as nat).len() as int, t2 as nat),
        shape_both(t1, t2)[21 + dec_spec(t1 as nat).len() as int + dec_spec(t2 as nat).len() as int]
            == '}' as u8,
        shape_both(t1, t2) == (seq!['{' as u8] + key_online_lit()) + (dec_spec(t1 as nat)
            + (seq![',' as u8] + (key_players_lit() + (dec_spec(t2 as nat)
            + seq!['}' as u8])))),
{
    lemma_dec_spec_digits(t1 as nat);
    lemma_dec_spec_digits(t2 as nat);
    let l1 = dec_spec(t1 as nat).len() as int;
    let l2 = dec_spec(t2 as nat).len() as int;
    assert(shape_both(t1, t2).subrange(1, 10) =~= key_online_lit());
    assert(shape_both(t1, t2).subrange(10, 10 + l1) =~= dec_spec(t1 as nat));
    assert(shape_both(t1, t2).subrange(11 + l1, 21 + l1) =~= key_players_lit());
    assert(shape_both(t1, t2).subrange(21 + l1, 21 + l1 + l2) =~= dec_spec(t2 as nat));
    assert(shape_both(t1, t2) =~= (seq!['{' as u8] + key_online_lit()) + (dec_spec(t1 as nat)
        + (seq![',' as u8] + (key_players_lit() + (dec_spec(t2 as nat) + seq!['}' as u8])))));
}

} // verus!

verus! {

/// Do the bytes of `pat` stand at position `start` of `v`?
fn match_bytes(v: &Vec<u8>, start: usize, pat: &Vec<u8>) -> (r: bool)
    requires
        start <= v.len(),
    ensures
        r == (start + pat@.len() <= v@.len() && v@.subrange(
            start as int,
            start as int + pat@.len() as int,
        ) == pat@),
{
    if v.len() - start < pat.len() {
        return false;
    }
    let mut i: usize = 0;
    while i < pat.len()
        invariant
            0 <= i <= pat.len(),
            start + pat.len() <= v.len(),
            forall|k: int| 0 <= k < i ==> v@[start + k] == pat@[k],
        decreases pat.len() - i,
    {
        if v[start + i] != pat[i] {
            proof {
                assert(v@.subrange(start as int, start as int + pat@.len() as int)[i as int]
                    == v@[start + i]);
            }
            return false;
        }
        i = i + 1;
    }
    proof {
        assert(v@.subrange(start as int, start as int + pat@.len() as int) =~= pat@);
    }
    true
}

/// Are two byte vectors equal, element for element?
fn bytes_eq(a: &Vec<u8>, b: &Vec<u8>) -> (r: bool)
    ensures
        r == (a@ == b@),
{
    if a.len() != b.len() {
        return false;
    }
    let mut i: usize = 0;
    while i < a.len()
        invariant
            0 <= i <= a.len(),
            a@.len() == b@.len(),
            forall|k: int| 0 <= k < i ==> a@[k] == b@[k],
        decreases a.len() - i,
    {
        if a[i] != b[i] {
            return false;
        }
        i = i + 1;
    }
    proof {
        assert(a@ =~= b@);
    }
    true
}

/// Read the run of decimal digits that starts at `start`.  Where that run is
/// the numeral of some value `n` — as it always is inside a well-formed
/// record — the call returns exactly `n` and the position just past the run.
fn parse_digits(v: &Vec<u8>, start: usize) -> (r: Option<(u64, usize)>)
    requires
        start <= v.len(),
    ensures
        forall|n: u64| digits_at(v@, start as int, n as nat) ==> (r matches Some(p) && p.0 == n
            && p.1 as int == start + dec_spec(n as nat).len()),
        r matches Some(p) ==> start <= p.1 <= v@.len(),
{
    if start == v.len() || !(48 <= v[start] && v[start] <= 57) {
        proof {
            assert forall|n: u64| !digits_at(v@, start as int, n as nat) by {
                if digits_at(v@, start as int, n as nat) {
                    lemma_dec_spec_digits(n as nat);
                    assert(v@.subrange(
                        start as int,
                        start as int + dec_spec(n as nat).len() as int,
                    )[0] == v@[start as int]);
                    assert(is_digit(v@[start as int]));
                }
            }
        }
        return None;
    }
    let ghost s0 = start as int;
    let mut j: usize = start;
    let mut acc: u64 = 0;
    while j < v.len() && 48 <= v[j] && v[j] <= 57
        invariant
            start <= j <= v.len(),
            s0 == start as int,
            forall|k: int| s0 <= k < j ==> is_digit(#[trigger] v@[k]),
            acc as nat == dec_val(v@.subrange(s0, j as int)),
        decreases v.len() - j,
    {
        let d: u8 = v[j] - 48;
        if acc > (u64::MAX - d as u64) / 10 {
            proof {
                assert forall|n: u64| !digits_at(v@, s0, n as nat) by {
                    if digits_at(v@, s0, n as nat) {
                        let s = dec_spec(n as nat);
                        let l = s.len() as int;
                        lemma_dec_spec_digits(n as nat);
                        lemma_dec_val_of_dec_spec(n as nat);
                        // the loop has not yet consumed the whole numeral
                        if j >= s0 + l {
                            if j == s0 + l {
                                assert(is_digit(v@[j as int]));
                            } else {
                                assert(is_digit(v@[s0 + l]));
                            }
                            assert(false);
                        }
                        // the bytes consumed so far are a prefix of the numeral
                        let m = j - s0;
                        assert(v@.subrange(s0, j as int) =~= s.subrange(0, m));
                        assert(v@[j as int] == s[m]);
                        assert(s.subrange(0, m + 1) =~= s.subrange(0, m).push(s[m]));
                        lemma_dec_val_snoc(s.subrange(0, m), s[m]);
                        lemma_dec_val_prefix_le(s, m + 1);
                        // so accepting this digit cannot overflow
                        assert(acc as nat * 10 + (d as nat) <= n as nat);
                        let x = (u64::MAX - d) as int;
                        vstd::arithmetic::div_mod::lemma_fundamental_div_mod(x, 10);
                        assert((x / 10) * 10 <= x);
                        assert(acc as int > x / 10);
                        assert(acc as int >= x / 10 + 1);
                        assert(acc as int * 10 >= (x / 10) * 10 + 10);
                        assert(acc as int * 10 + d > u64::MAX);
                        assert(false);
                    }
                }
            }
            return None;
        }
        proof {
            let x = (u64::MAX - d) as int;
            vstd::arithmetic::div_mod::lemma_fundamental_div_mod(x, 10);
            assert((x / 10) * 10 <= x);
            assert(acc as int * 10 <= (x / 10) * 10);
            assert(acc as int * 10 + d as int <= u64::MAX);
            assert(v@.subrange(s0, j + 1) =~= v@.subrange(s0, j as int).push(v@[j as int]));
            lemma_dec_val_snoc(v@.subrange(s0, j as int), v@[j as int]);
        }
        acc = acc * 10 + d as u64;
        j = j + 1;
    }
    proof {
        assert forall|n: u64| digits_at(v@, s0, n as nat) implies acc == n && j as int == s0
            + dec_spec(n as nat).len() by {
            let s = dec_spec(n as nat);
            let l = s.len() as int;
            lemma_dec_spec_digits(n as nat);
            lemma_dec_val_of_dec_spec(n as nat);
            if j < s0 + l {
                assert(v@.subrange(s0, s0 + l)[j - s0] == v@[j as int]);
                assert(is_digit(s[j - s0]));
                assert(false);
            }
            if j > s0 + l {
                assert(is_digit(v@[s0 + l]));
                assert(s0 + l == v@.len() || !is_digit(v@[s0 + l]));
                assert(false);
            }
            assert(v@.subrange(s0, j as int) == s);
        }
    }
    Some((acc, j))
}

} // verus!

verus! {

/// Parse the bytes of a record, correctly for every canonically serialized
/// well-formed record; on any other input the result is unspecified (the
/// caller re-serializes and compares to detect that case).
#[verifier::rlimit(100)]
#[verifier::spinoff_prover]
fn loose_parse(v: &Vec<u8>) -> (r: Option<PersistedState>)
    ensures
        forall|st: PersistedState| st.wf() && v@ == ser_spec(st) ==> r == Some(st),
        r matches Some(s) ==> s.wf(),
{
    if v.len() < 2 || v[0] != '{' as u8 {
        proof {
            assert forall|st: PersistedState| !(st.wf() && v@ == ser_spec(st)) by {
                if st.wf() && v@ == ser_spec(st) {
                    lemma_ser_shape(st);
                    match (st.last_online_at, st.last_players_seen_at) {
                        (None, None) => lemma_shape_none_facts(),
                        (Some(t), None) => lemma_shape_online_facts(t),
                        (None, Some(t)) => lemma_shape_players_facts(t),
                        (Some(t1), Some(t2)) => lemma_shape_both_facts(t1, t2),
                    }
                    assert(v@.len() >= 2 && v@[0] == '{' as u8);
                }
            }
        }
        return None;
    }
    if v[1] == '}' as u8 {
        let ds = default_state();
        proof {
            assert forall|st: PersistedState| st.wf() && v@ == ser_spec(st) implies Some(ds)
                == Some(st) by {
                lemma_ser_shape(st);
                match (st.last_online_at, st.last_players_seen_at) {
                    (None, None) => {
                        lemma_shape_none_facts();
                        assert(st == ds);
                    },
                    (Some(t), None) => {
                        lemma_shape_online_facts(t);
                        assert(v@[1] == '"' as u8);
                        assert(false);
                    },
                    (None, Some(t)) => {
                        lemma_shape_players_facts(t);
                        assert(v@[1] == '"' as u8);
                        assert(false);
                    },
                    (Some(t1), Some(t2)) => {
                        lemma_shape_both_facts(t1, t2);
                        assert(v@[1] == '"' as u8);
                        assert(false);
                    },
                }
            }
        }
        return Some(ds);
    }
    let ok = online_key();
    let pk = players_key();
    if match_bytes(v, 1, &ok) {
        match parse_digits(v, 10) {
            None => {
                proof {
                    assert forall|st: PersistedState| !(st.wf() && v@ == ser_spec(st)) by {
                        if st.wf() && v@ == ser_spec(st) {
                            lemma_ser_shape(st);
                            match (st.last_online_at, st.last_players_seen_at) {
                                (None, None) => {
                                    lemma_shape_none_facts();
                                    assert(false);
                                },
                                (None, Some(t)) => {
                                    lemma_shape_players_facts(t);
                                    assert(v@.subrange(1, 10)[1] == v@[2]);
                                    assert(false);
                                },
                                (Some(t), None) => {
                                    lemma_shape_online_facts(t);
                                    assert(digits_at(v@, 10, t as nat));
                                    assert(false);
                                },
                                (Some(t1), Some(t2)) => {
                                    lemma_shape_both_facts(t1, t2);
                                    assert(digits_at(v@, 10, t1 as nat));
                                    assert(false);
                                },
                            }
                        }
                    }
                }
                None
            },
            Some((t1, j)) => {
                if t1 > i64::MAX as u64 {
                    proof {
                        assert forall|st: PersistedState| !(st.wf() && v@ == ser_spec(st)) by {
                            if st.wf() && v@ == ser_spec(st) {
                                lemma_ser_shape(st);
                                match (st.last_online_at, st.last_players_seen_at) {
                                    (None, None) => {
                                        lemma_shape_none_facts();
                                        assert(false);
                                    },
                                    (None, Some(t)) => {
                                        lemma_shape_players_facts(t);
                                        assert(v@.subrange(1, 10)[1] == v@[2]);
                                        assert(false);
                                    },
                                    (Some(t), None) => {
                                        lemma_shape_online_facts(t);
                                        assert(digits_at(v@, 10, t as nat));
                                        assert(t == t1);
                                        assert(false);
                                    },
                                    (Some(ta), Some(tb)) => {
                                        lemma_shape_both_facts(ta, tb);
                                        assert(digits_at(v@, 10, ta as nat));
                                        assert(ta == t1);
                                        assert(false);
                                    },
                                }
                            }
                        }
                    }
                    return None;
                }
                if j < v.len() && v[j] == '}' as u8 {
                    if j + 1 == v.len() {
                        let res = PersistedState {
                            last_online_at: Some(t1),
                            last_players_seen_at: None,
                        };
                        proof {
                            assert forall|st: PersistedState| st.wf() && v@ == ser_spec(st)
                                implies Some(res) == Some(st) by {
                                lemma_ser_shape(st);
                                match (st.last_online_at, st.last_players_seen_at) {
                                    (None, None) => {
                                        lemma_shape_none_facts();
                                        assert(false);
                                    },
                                    (None, Some(t)) => {
                                        lemma_shape_players_facts(t);
                                        assert(v@.subrange(1, 10)[1] == v@[2]);
                                        assert(false);
                                    },
                                    (Some(t), None) => {
                                        lemma_shape_online_facts(t);
                                        assert(digits_at(v@, 10, t as nat));
                                        assert(t == t1);
                                        assert(st == res);
                                    },
                                    (Some(ta), Some(tb)) => {
                                        lemma_shape_both_facts(ta, tb);
                                        assert(digits_at(v@, 10, ta as nat));
                                        assert(ta == t1);
                                        assert(j as int == 10 + dec_spec(ta as nat).len());
                                        assert(v@[j as int] == ',' as u8);
                                        assert(false);
                                    },
                                }
                            }
                        }
                        Some(res)
                    } else {
                        proof {
                            assert forall|st: PersistedState| !(st.wf() && v@ == ser_spec(st)) by {
                                if st.wf() && v@ == ser_spec(st) {
                                    lemma_ser_shape(st);
                                    match (st.last_online_at, st.last_players_seen_at) {
                                        (None, None) => {
                                            lemma_shape_none_facts();
                                            assert(false);
                                        },
                                        (None, Some(t)) => {
                                            lemma_shape_players_facts(t);
                                            assert(v@.subrange(1, 10)[1] == v@[2]);
                                            assert(false);
                                        },
                                        (Some(t), None) => {
                                            lemma_shape_online_facts(t);
                                            assert(digits_at(v@, 10, t as nat));
                                            assert(j as int == 10 + dec_spec(t as nat).len());
                                            assert(v@.len() == 11 + dec_spec(t as nat).len());
                                            assert(false);
                                        },
                                        (Some(ta), Some(tb)) => {
                                            lemma_shape_both_facts(ta, tb);
                                            assert(digits_at(v@, 10, ta as nat));
                                            assert(j as int == 10 + dec_spec(ta as nat).len());
                                            assert(v@[j as int] == ',' as u8);
                                            assert(false);
                                        },
                                    }
                                }
                            }
                        }
                        None
                    }
                } else if j < v.len() && v[j] == ',' as u8 {
                    if match_bytes(v, j + 1, &pk) {
                        match parse_digits(v, j + 11) {
                            None => {
                                proof {
                                    assert forall|st: PersistedState| !(st.wf() && v@ == ser_spec(
                                        st,
                                    )) by {
                                        if st.wf() && v@ == ser_spec(st) {
                                            lemma_ser_shape(st);
                                            match (st.last_online_at, st.last_players_seen_at) {
                                                (None, None) => {
                                                    lemma_shape_none_facts();
                                                    assert(false);
                                                },
                                                (None, Some(t)) => {
                                                    lemma_shape_players_facts(t);
                                                    assert(v@.subrange(1, 10)[1] == v@[2]);
                                                    assert(false);
                                                },
                                                (Some(t), None) => {
                                                    lemma_shape_online_facts(t);
                                                    assert(digits_at(v@, 10, t as nat));
                                                    assert(j as int == 10 + dec_spec(
                                                        t as nat,
                                                    ).len());
                                                    assert(v@[j as int] == '}' as u8);
                                                    assert(false);
                                                },
                                                (Some(ta), Some(tb)) => {
                                                    lemma_shape_both_facts(ta, tb);
                                                    assert(digits_at(v@, 10, ta as nat));
                                                    assert(j as int == 10 + dec_spec(
                                                        ta as nat,
                                                    ).len());
                                                    assert(digits_at(
                                                        v@,
                                                        j + 11,
                                                        tb as nat,
                                                    ));
                                                    assert(false);
                                                },
                                            }
                                        }
                                    }
                                }
                                None
                            },
                            Some((t2, k)) => {
                                if t2 > i64::MAX as u64 {
                                    proof {
                                        assert forall|st: PersistedState| !(st.wf() && v@
                                            == ser_spec(st)) by {
                                            if st.wf() && v@ == ser_spec(st) {
                                                lemma_ser_shape(st);
                                                match (st.last_online_at, st.last_players_seen_at) {
                                                    (None, None) => {
                                                        lemma_shape_none_facts();
                                                        assert(false);
                                                    },
                                                    (None, Some(t)) => {
                                                        lemma_shape_players_facts(t);
                                                        assert(v@.subrange(1, 10)[1] == v@[2]);
                                                        assert(false);
                                                    },
                                                    (Some(t), None) => {
                                                        lemma_shape_online_facts(t);
                                                        assert(digits_at(v@, 10, t as nat));
                                                        assert(j as int == 10 + dec_spec(
                                                            t as nat,
                                                        ).len());
                                                        assert(v@[j as int] == '}' as u8);
                                                        assert(false);
                                                    },
                                                    (Some(ta), Some(tb)) => {
                                                        lemma_shape_both_facts(ta, tb);
                                                        assert(digits_at(v@, 10, ta as nat));
                                                        assert(j as int == 10 + dec_spec(
                                                            ta as nat,
                                                        ).len());
                                                        assert(digits_at(v@, j + 11, tb as nat));
                                                        assert(tb == t2);
                                                        assert(false);
                                                    },
                                                }
                                            }
                                        }
                                    }
                                    return None;
                                }
                                if k < v.len() && v[k] == '}' as u8 && k + 1 == v.len() {
                                    let res = PersistedState {
                                        last_online_at: Some(t1),
                                        last_players_seen_at: Some(t2),
                                    };
                                    proof {
                                        assert forall|st: PersistedState| st.wf() && v@ == ser_spec(
                                            st,
                                        ) implies Some(res) == Some(st) by {
                                            lemma_ser_shape(st);
                                            match (st.last_online_at, st.last_players_seen_at) {
                                                (None, None) => {
                                                    lemma_shape_none_facts();
                                                    assert(false);
                                                },
                                                (None, Some(t)) => {
                                                    lemma_shape_players_facts(t);
                                                    assert(v@.subrange(1, 10)[1] == v@[2]);
                                                    assert(false);
                                                },
                                                (Some(t), None) => {
                                                    lemma_shape_online_facts(t);
                                                    assert(digits_at(v@, 10, t as nat));
                                                    assert(j as int == 10 + dec_spec(
                                                        t as nat,
                                                    ).len());
                                                    assert(v@[j as int] == '}' as u8);
                                                    assert(false);
                                                },
                                                (Some(ta), Some(tb)) => {
                                                    lemma_shape_both_facts(ta, tb);
                                                    assert(digits_at(v@, 10, ta as nat));
                                                    assert(ta == t1);
                                                    assert(j as int == 10 + dec_spec(
                                                        ta as nat,
                                                    ).len());
                                                    assert(digits_at(v@, j + 11, tb as nat));
                                                    assert(tb == t2);
                                                    assert(st == res);
                                                },
                                            }
                                        }
                                    }
                                    Some(res)
                                } else {
                                    proof {
                                        assert forall|st: PersistedState| !(st.wf() && v@
                                            == ser_spec(st)) by {
                                            if st.wf() && v@ == ser_spec(st) {
                                                lemma_ser_shape(st);
                                                match (st.last_online_at, st.last_players_seen_at) {
                                                    (None, None) => {
                                                        lemma_shape_none_facts();
                                                        assert(false);
                                                    },
                                                    (None, Some(t)) => {
                                                        lemma_shape_players_facts(t);
                                                        assert(v@.subrange(1, 10)[1] == v@[2]);
                                                        assert(false);
                                                    },
                                                    (Some(t), None) => {
                                                        lemma_shape_online_facts(t);
                                                        assert(digits_at(v@, 10, t as nat));
                                                        assert(j as int == 10 + dec_spec(
                                                            t as nat,
                                                        ).len());
                                                        assert(v@[j as int] == '}' as u8);
                                                        assert(false);
                                                    },
                                                    (Some(ta), Some(tb)) => {
                                                        lemma_shape_both_facts(ta, tb);
                                                        assert(digits_at(v@, 10, ta as nat));
                                                        assert(j as int == 10 + dec_spec(
                                                            ta as nat,
                                                        ).len());
                                                        assert(digits_at(v@, j + 11, tb as nat));
                                                        assert(k as int == j + 11 + dec_spec(
                                                            tb as nat,
                                                        ).len());
                                                        assert(v@[k as int] == '}' as u8);
                                                        assert(v@.len() == k + 1);
                                                        assert(false);
                                                    },
                                                }
                                            }
                                        }
                                    }
                                    None
                                }
                            },
                        }
                    } else {
                        proof {
                            assert forall|st: PersistedState| !(st.wf() && v@ == ser_spec(st)) by {
                                if st.wf() && v@ == ser_spec(st) {
                                    lemma_ser_shape(st);
                                    match (st.last_online_at, st.last_players_seen_at) {
                                        (None, None) => {
                                            lemma_shape_none_facts();
                                            assert(false);
                                        },
                                        (None, Some(t)) => {
                                            lemma_shape_players_facts(t);
                                            assert(v@.subrange(1, 10)[1] == v@[2]);
                                            assert(false);
                                        },
                                        (Some(t), None) => {
                                            lemma_shape_online_facts(t);
                                            assert(digits_at(v@, 10, t as nat));
                                            assert(j as int == 10 + dec_spec(t as nat).len());
                                            assert(v@[j as int] == '}' as u8);
                                            assert(false);
                                        },
                                        (Some(ta), Some(tb)) => {
                                            lemma_shape_both_facts(ta, tb);
                                            assert(digits_at(v@, 10, ta as nat));
                                            assert(j as int == 10 + dec_spec(ta as nat).len());
                                            assert(v@.subrange(j + 1, j + 11)
                                                == key_players_lit());
                                            assert(j + 11 <= v@.len());
                                            assert(false);
                                        },
                                    }
                                }
                            }
                        }
                        None
                    }
                } else {
                    proof {
                        assert forall|st: PersistedState| !(st.wf() && v@ == ser_spec(st)) by {
                            if st.wf() && v@ == ser_spec(st) {
                                lemma_ser_shape(st);
                                match (st.last_online_at, st.last_players_seen_at) {
                                    (None, None) => {
                                        lemma_shape_none_facts();
                                        assert(false);
                                    },
                                    (None, Some(t)) => {
                                        lemma_shape_players_facts(t);
                                        assert(v@.subrange(1, 10)[1] == v@[2]);
                                        assert(false);
                                    },
                                    (Some(t), None) => {
                                        lemma_shape_online_facts(t);
                                        assert(digits_at(v@, 10, t as nat));
                                        assert(j as int == 10 + dec_spec(t as nat).len());
                                        assert(v@[j as int] == '}' as u8);
                                        assert(false);
                                    },
                                    (Some(ta), Some(tb)) => {
                                        lemma_shape_both_facts(ta, tb);
                                        assert(digits_at(v@, 10, ta as nat));
                                        assert(j as int == 10 + dec_spec(ta as nat).len());
                                        assert(v@[j as int] == ',' as u8);
                                        assert(false);
                                    },
                                }
                            }
                        }
                    }
                    None
                }
            },
        }
    } else if match_bytes(v, 1, &pk) {
        match parse_digits(v, 11) {
            None => {
                proof {
                    assert forall|st: PersistedState| !(st.wf() && v@ == ser_spec(st)) by {
                        if st.wf() && v@ == ser_spec(st) {
                            lemma_ser_shape(st);
                            match (st.last_online_at, st.last_players_seen_at) {
                                (None, None) => {
                                    lemma_shape_none_facts();
                                    assert(false);
                                },
                                (Some(t), None) => {
                                    lemma_shape_online_facts(t);
                                    assert(v@.subrange(1, 10) == key_online_lit());
                                    assert(false);
                                },
                                (Some(ta), Some(tb)) => {
                                    lemma_shape_both_facts(ta, tb);
                                    assert(v@.subrange(1, 10) == key_online_lit());
                                    assert(false);
                                },
                                (None, Some(t)) => {
                                    lemma_shape_players_facts(t);
                                    assert(digits_at(v@, 11, t as nat));
                                    assert(false);
                                },
                            }
                        }
                    }
                }
                None
            },
            Some((t2, j)) => {
                if t2 > i64::MAX as u64 {
                    proof {
                        assert forall|st: PersistedState| !(st.wf() && v@ == ser_spec(st)) by {
                            if st.wf() && v@ == ser_spec(st) {
                                lemma_ser_shape(st);
                                match (st.last_online_at, st.last_players_seen_at) {
                                    (None, None) => {
                                        lemma_shape_none_facts();
                                        assert(false);
                                    },
                                    (Some(t), None) => {
                                        lemma_shape_online_facts(t);
                                        assert(v@.subrange(1, 10) == key_online_lit());
                                        assert(false);
                                    },
                                    (Some(ta), Some(tb)) => {
                                        lemma_shape_both_facts(ta, tb);
                                        assert(v@.subrange(1, 10) == key_online_lit());
                                        assert(false);
                                    },
                                    (None, Some(t)) => {
                                        lemma_shape_players_facts(t);
                                        assert(digits_at(v@, 11, t as nat));
                                        assert(t == t2);
                                        assert(false);
                                    },
                                }
                            }
                        }
                    }
                    return None;
                }
                if j < v.len() && v[j] == '}' as u8 && j + 1 == v.len() {
                    let res = PersistedState {
                        last_online_at: None,
                        last_players_seen_at: Some(t2),
                    };
                    proof {
                        assert forall|st: PersistedState| st.wf() && v@ == ser_spec(st)
                            implies Some(res) == Some(st) by {
                            lemma_ser_shape(st);
                            match (st.last_online_at, st.last_players_seen_at) {
                                (None, None) => {
                                    lemma_shape_none_facts();
                                    assert(false);
                                },
                                (Some(t), None) => {
                                    lemma_shape_online_facts(t);
                                    assert(v@.subrange(1, 10) == key_online_lit());
                                    assert(false);
                                },
                                (Some(ta), Some(tb)) => {
                                    lemma_shape_both_facts(ta, tb);
                                    assert(v@.subrange(1, 10) == key_online_lit());
                                    assert(false);
                                },
                                (None, Some(t)) => {
                                    lemma_shape_players_facts(t);
                                    assert(digits_at(v@, 11, t as nat));
                                    assert(t == t2);
                                    assert(st == res);
                                },
                            }
                        }
                    }
                    Some(res)
                } else {
                    proof {
                        assert forall|st: PersistedState| !(st.wf() && v@ == ser_spec(st)) by {
                            if st.wf() && v@ == ser_spec(st) {
                                lemma_ser_shape(st);
                                match (st.last_online_at, st.last_players_seen_at) {
                                    (None, None) => {
                                        lemma_shape_none_facts();
                                        assert(false);
                                    },
                                    (Some(t), None) => {
                                        lemma_shape_online_facts(t);
                                        assert(v@.subrange(1, 10) == key_online_lit());
                                        assert(false);
                                    },
                                    (Some(ta), Some(tb)) => {
                                        lemma_shape_both_facts(ta, tb);
                                        assert(v@.subrange(1, 10) == key_online_lit());
                                        assert(false);
                                    },
                                    (None, Some(t)) => {
                                        lemma_shape_players_facts(t);
                                        assert(digits_at(v@, 11, t as nat));
                                        assert(j as int == 11 + dec_spec(t as nat).len());
                                        assert(v@[j as int] == '}' as u8);
                                        assert(v@.len() == j + 1);
                                        assert(false);
                                    },
                                }
                            }
                        }
                    }
                    None
                }
            },
        }
    } else {
        proof {
            assert forall|st: PersistedState| !(st.wf() && v@ == ser_spec(st)) by {
                if st.wf() && v@ == ser_spec(st) {
                    lemma_ser_shape(st);
                    match (st.last_online_at, st.last_players_seen_at) {
                        (None, None) => {
                            lemma_shape_none_facts();
                            assert(false);
                        },
                        (Some(t), None) => {
                            lemma_shape_online_facts(t);
                            assert(v@.subrange(1, 10) == key_online_lit());
                            assert(1 + key_online_lit().len() <= v@.len());
                            assert(false);
                        },
                        (Some(ta), Some(tb)) => {
                            lemma_shape_both_facts(ta, tb);
                            assert(v@.subrange(1, 10) == key_online_lit());
                            assert(1 + key_online_lit().len() <= v@.len());
                            assert(false);
                        },
                        (None, Some(t)) => {
                            lemma_shape_players_facts(t);
                            assert(v@.subrange(1, 11) == key_players_lit());
                            assert(1 + key_players_lit().len() <= v@.len());
                            assert(false);
                        },
                    }
                }
            }
        }
        None
    }
}

} // verus!

verus! {

/// What loading yields for given bytes: the unique well-formed record they
/// serialize, or the default record when they serialize none.
pub open spec fn parse_spec(v: Seq<u8>) -> PersistedState {
    if exists|st: PersistedState| st.wf() && v == ser_spec(st) {
        choose|st: PersistedState| st.wf() && v == ser_spec(st)
    } else {
        default_state_spec()
    }
}

/// Parse the bytes of a stored record.  Total: bytes that are not the
/// serialization of any well-formed record — a missing, truncated or
/// otherwise corrupted store — yield the default record rather than an
/// error.
pub fn parse_state(v: &Vec<u8>) -> (s: PersistedState)
    ensures
        s.wf(),
        s == parse_spec(v@),
        forall|st: PersistedState| st.wf() && v@ == ser_spec(st) ==> s == st,
        (forall|st: PersistedState| st.wf() ==> v@ != ser_spec(st)) ==> s == default_state_spec(),
{
    let c = loose_parse(v);
    match c {
        Some(cand) => {
            let ser = serialize_state(&cand);
            if bytes_eq(&ser, v) {
                proof {
                    assert(cand.wf() && v@ == ser_spec(cand));
                    let x = choose|x: PersistedState| x.wf() && v@ == ser_spec(x);
                    assert(c == Some(x));
                    assert(parse_spec(v@) == cand);
                }
                cand
            } else {
                proof {
                    assert forall|st: PersistedState| st.wf() implies v@ != ser_spec(st) by {
                        if v@ == ser_spec(st) {
                            assert(c == Some(st));
                            assert(ser@ == ser_spec(st));
                        }
                    }
                }
                default_state()
            }
        },
        None => {
            proof {
                assert forall|st: PersistedState| st.wf() implies v@ != ser_spec(st) by {
                    if v@ == ser_spec(st) {
                        assert(c == Some(st));
                    }
                }
            }
            default_state()
        },
    }
}

// ---------------------------------------------------------------------------
// Round trip
// ---------------------------------------------------------------------------

/// Equal concatenations with equal first parts have equal second parts.
proof fn lemma_cancel_prefix(p: Seq<u8>, x: Seq<u8>, y: Seq<u8>)
    requires
        p + x == p + y,
    ensures
        x == y,
{
    assert(x.len() == y.len()) by {
        assert((p + x).len() == p.len() + x.len());
        assert((p + y).len() == p.len() + y.len());
    }
    assert forall|i: int| 0 <= i < x.len() implies x[i] == y[i] by {
        assert((p + x)[p.len() + i] == x[i]);
        assert((p + y)[p.len() + i] == y[i]);
        assert((p + x)[p.len() + i] == (p + y)[p.len() + i]);
    }
    assert(x =~= y);
}

/// A run of digits followed by a non-digit is read off unambiguously: equal
/// concatenations split at the first non-digit split equally.
proof fn lemma_digit_run(d1: Seq<u8>, t1: Seq<u8>, d2: Seq<u8>, t2: Seq<u8>)
    requires
        forall|i: int| 0 <= i < d1.len() ==> is_digit(#[trigger] d1[i]),
        forall|i: int| 0 <= i < d2.len() ==> is_digit(#[trigger] d2[i]),
        t1.len() > 0,
        !is_digit(t1[0]),
        t2.len() > 0,
        !is_digit(t2[0]),
        d1 + t1 == d2 + t2,
    ensures
        d1 == d2,
        t1 == t2,
    decreases d1.len(),
{
    if d1.len() == 0 {
        if d2.len() > 0 {
            assert((d1 + t1)[0] == t1[0]);
            assert((d2 + t2)[0] == d2[0]);
            assert(is_digit(d2[0]));
            assert(false);
        }
        assert(d1 =~= d2);
        assert(d2 + t1 == d2 + t2);
        lemma_cancel_prefix(d2, t1, t2);
    } else {
        if d2.len() == 0 {
            assert((d2 + t2)[0] == t2[0]);
            assert((d1 + t1)[0] == d1[0]);
            assert(is_digit(d1[0]));
            assert(false);
        }
        let d1p = d1.subrange(1, d1.len() as int);
        let d2p = d2.subrange(1, d2.len() as int);
        assert(d1p + t1 =~= (d1 + t1).subrange(1, (d1 + t1).len() as int));
        assert(d2p + t2 =~= (d2 + t2).subrange(1, (d2 + t2).len() as int));
        assert(forall|i: int| 0 <= i < d1p.len() ==> is_digit(#[trigger] d1p[i]));
        assert(forall|i: int| 0 <= i < d2p.len() ==> is_digit(#[trigger] d2p[i]));
        lemma_digit_run(d1p, t1, d2p, t2);
        assert(d1.len() == d2.len());
        assert forall|i: int| 0 <= i < d1.len() implies d1[i] == d2[i] by {
            if i == 0 {
                assert((d1 + t1)[0] == d1[0]);
                assert((d2 + t2)[0] == d2[0]);
            } else {
                assert(d1p[i - 1] == d1[i]);
                assert(d2p[i - 1] == d2[i]);
            }
        }
        assert(d1 =~= d2);
    }
}

/// Serialization is injective: distinct records have distinct serialized
/// forms.
pub proof fn lemma_ser_injective(a: PersistedState, b: PersistedState)
    requires
        ser_spec(a) == ser_spec(b),
    ensures
        a == b,
{
    lemma_ser_shape(a);
    lemma_ser_shape(b);
    let brace = seq!['}' as u8];
    match (a.last_online_at, a.last_players_seen_at) {
        (None, None) => {
            lemma_shape_none_facts();
            match (b.last_online_at, b.last_players_seen_at) {
                (None, None) => {
                    assert(a == b);
                },
                (Some(t), None) => {
                    lemma_shape_online_facts(t);
                    assert(false);
                },
                (None, Some(t)) => {
                    lemma_shape_players_facts(t);
                    assert(false);
                },
                (Some(t1), Some(t2)) => {
                    lemma_shape_both_facts(t1, t2);
                    assert(false);
                },
            }
        },
        (Some(ta), None) => {
            lemma_shape_online_facts(ta);
            lemma_dec_spec_digits(ta as nat);
            match (b.last_online_at, b.last_players_seen_at) {
                (None, None) => {
                    lemma_shape_none_facts();
                    assert(false);
                },
                (None, Some(t)) => {
                    lemma_shape_players_facts(t);
                    assert(ser_spec(a)[2] == 'o' as u8);
                    assert(ser_spec(b)[2] == 'p' as u8);
                    assert(false);
                },
                (Some(tb), None) => {
                    lemma_shape_online_facts(tb);
                    lemma_dec_spec_digits(tb as nat);
                    let p = seq!['{' as u8] + key_online_lit();
                    lemma_cancel_prefix(
                        p,
                        dec_spec(ta as nat) + brace,
                        dec_spec(tb as nat) + brace,
                    );
                    lemma_digit_run(dec_spec(ta as nat), brace, dec_spec(tb as nat), brace);
                    lemma_dec_spec_injective(ta as nat, tb as nat);
                    assert(a == b);
                },
                (Some(tb1), Some(tb2)) => {
                    lemma_shape_both_facts(tb1, tb2);
                    lemma_dec_spec_digits(tb1 as nat);
                    let p = seq!['{' as u8] + key_online_lit();
                    let tail_b = seq![',' as u8] + (key_players_lit() + (dec_spec(tb2 as nat)
                        + brace));
                    lemma_cancel_prefix(p, dec_spec(ta as nat) + brace, dec_spec(tb1 as nat)
                        + tail_b);
                    lemma_digit_run(dec_spec(ta as nat), brace, dec_spec(tb1 as nat), tail_b);
                    assert(brace[0] == tail_b[0]);
                    assert(false);
                },
            }
        },
        (None, Some(ta)) => {
            lemma_shape_players_facts(ta);
            lemma_dec_spec_digits(ta as nat);
            match (b.last_online_at, b.last_players_seen_at) {
                (None, None) => {
                    lemma_shape_none_facts();
                    assert(false);
                },
                (Some(t), None) => {
                    lemma_shape_online_facts(t);
                    assert(ser_spec(a)[2] == 'p' as u8);
                    assert(ser_spec(b)[2] == 'o' as u8);
                    assert(false);
                },
                (Some(tb1), Some(tb2)) => {
                    lemma_shape_both_facts(tb1, tb2);
                    assert(ser_spec(a)[2] == 'p' as u8);
                    assert(ser_spec(b)[2] == 'o' as u8);
                    assert(false);
                },
                (None, Some(tb)) => {
                    lemma_shape_players_facts(tb);
                    lemma_dec_spec_digits(tb as nat);
                    let p = seq!['{' as u8] + key_players_lit();
                    lemma_cancel_prefix(
                        p,
                        dec_spec(ta as nat) + brace,
                        dec_spec(tb as nat) + brace,
                    );
                    lemma_digit_run(dec_spec(ta as nat), brace, dec_spec(tb as nat), brace);
                    lemma_dec_spec_injective(ta as nat, tb as nat);
                    assert(a == b);
                },
            }
        },
        (Some(ta1), Some(ta2)) => {
            lemma_shape_both_facts(ta1, ta2);
            lemma_dec_spec_digits(ta1 as nat);
            lemma_dec_spec_digits(ta2 as nat);
            match (b.last_online_at, b.last_players_seen_at) {
                (None, None) => {
                    lemma_shape_none_facts();
                    assert(false);
                },
                (None, Some(t)) => {
                    lemma_shape_players_facts(t);
                    assert(ser_spec(a)[2] == 'o' as u8);
                    assert(ser_spec(b)[2] == 'p' as u8);
                    assert(false);
                },
                (Some(tb), None) => {
                    lemma_shape_online_facts(tb);
                    lemma_dec_spec_digits(tb as nat);
                    let p = seq!['{' as u8] + key_online_lit();
                    let tail_a = seq![',' as u8] + (key_players_lit() + (dec_spec(ta2 as nat)
                        + brace));
                    lemma_cancel_prefix(p, dec_spec(ta1 as nat) + tail_a, dec_spec(tb as nat)
                        + brace);
                    lemma_digit_run(dec_spec(ta1 as nat), tail_a, dec_spec(tb as nat), brace);
                    assert(tail_a[0] == brace[0]);
                    assert(false);
                },
                (Some(tb1), Some(tb2)) => {
                    lemma_shape_both_facts(tb1, tb2);
                    lemma_dec_spec_digits(tb1 as nat);
                    lemma_dec_spec_digits(tb2 as nat);
                    let p = seq!['{' as u8] + key_online_lit();
                    let tail_a = seq![',' as u8] + (key_players_lit() + (dec_spec(ta2 as nat)
                        + brace));
                    let tail_b = seq![',' as u8] + (key_players_lit() + (dec_spec(tb2 as nat)
                        + brace));
                    lemma_cancel_prefix(p, dec_spec(ta1 as nat) + tail_a, dec_spec(tb1 as nat)
                        + tail_b);
                    lemma_digit_run(dec_spec(ta1 as nat), tail_a, dec_spec(tb1 as nat), tail_b);
                    lemma_dec_spec_injective(ta1 as nat, tb1 as nat);
                    let q = seq![',' as u8] + key_players_lit();
                    assert(q + (dec_spec(ta2 as nat) + brace) =~= tail_a);
                    assert(q + (dec_spec(tb2 as nat) + brace) =~= tail_b);
                    lemma_cancel_prefix(
                        q,
                        dec_spec(ta2 as nat) + brace,
                        dec_spec(tb2 as nat) + brace,
                    );
                    lemma_digit_run(dec_spec(ta2 as nat), brace, dec_spec(tb2 as nat), brace);
                    lemma_dec_spec_injective(ta2 as nat, tb2 as nat);
                    assert(a == b);
                },
            }
        },
    }
}

/// Round trip of the store: the bytes a well-formed record serializes to
/// parse back to that record exactly — both instants, present or absent,
/// survive a save and a load unchanged.
pub proof fn lemma_store_round_trip(st: PersistedState)
    requires
        st.wf(),
    ensures
        parse_spec(ser_spec(st)) == st,
{
    assert(exists|x: PersistedState| x.wf() && ser_spec(st) == ser_spec(x));
    let x = choose|x: PersistedState| x.wf() && ser_spec(st) == ser_spec(x);
    lemma_ser_injective(st, x);
}

} // verus!
