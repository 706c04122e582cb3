//! Object, bucket and part identifiers.
//!
//! An identifier is a 128-bit value whose text form is the canonical
//! hyphenated lowercase hex rendering, 36 characters long: eight digits,
//! then three groups of four, then twelve, separated by `-`.

use crate::hash::spec_hex_digits;
use vstd::arithmetic::div_mod::{
    lemma_div_denominator, lemma_fundamental_div_mod_converse_div, lemma_mod_bound,
    lemma_mod_multiples_vanish, lemma_small_mod,
};
use vstd::prelude::*;
use vstd::string::StrSliceExecFns;

verus! {

/// Powers of sixteen.
pub open spec fn pow16(e: nat) -> int
    decreases e,
{
    if e == 0 {
        1
    } else {
        16 * pow16((e - 1) as nat)
    }
}

pub proof fn lemma_pow16_pos(e: nat)
    ensures
        pow16(e) >= 1,
    decreases e,
{
    if e > 0 {
        lemma_pow16_pos((e - 1) as nat);
    }
}

pub proof fn lemma_pow16_le(e1: nat, e2: nat)
    requires
        e1 <= e2,
    ensures
        pow16(e1) <= pow16(e2),
    decreases e2,
{
    if e1 < e2 {
        lemma_pow16_le(e1, (e2 - 1) as nat);
        lemma_pow16_pos((e2 - 1) as nat);
    }
}

/// The `k`-th hex digit value of `id`, counting from the most significant.
pub open spec fn id_nibble(id: u128, k: int) -> int {
    (id as int / pow16((31 - k) as nat)) % 16
}

/// The positions of the four hyphens within the 36-character text form.
pub open spec fn is_dash_pos(p: int) -> bool {
    p == 8 || p == 13 || p == 18 || p == 23
}

/// How many hex digits precede position `p` of the text form.
pub open spec fn nibbles_before(p: int) -> int {
    if p <= 8 {
        p
    } else if p <= 13 {
        p - 1
    } else if p <= 18 {
        p - 2
    } else if p <= 23 {
        p - 3
    } else {
        p - 4
    }
}

/// The character at position `p` of the text form of `id`.
pub open spec fn spec_uuid_char(id: u128, p: int) -> char {
    if is_dash_pos(p) {
        '-'
    } else {
        spec_hex_digits()[id_nibble(id, nibbles_before(p))]
    }
}

/// The canonical 36-character text form of an identifier.
pub open spec fn spec_uuid(id: u128) -> Seq<char> {
    Seq::new(36, |p: int| spec_uuid_char(id, p))
}

/// Every character of the text form is ASCII.
pub proof fn lemma_spec_uuid_ascii(id: u128)
    ensures
        vstd::utf8::is_ascii_chars(spec_uuid(id)),
{
    assert forall|p: int| 0 <= p < spec_uuid(id).len() implies '\0' <= #[trigger] spec_uuid(
        id,
    )[p] <= '\u{7f}' by {
        if !is_dash_pos(p) {
            let k = nibbles_before(p);
            lemma_pow16_pos((31 - k) as nat);
            lemma_mod_bound(id as int / pow16((31 - k) as nat), 16);
        }
    }
}

/// One lowercase hex digit.
fn hex_digit(d: u8) -> (c: char)
    requires
        d < 16,
    ensures
        c == spec_hex_digits()[d as int],
{
    if d == 0 {
        '0'
    } else if d == 1 {
        '1'
    } else if d == 2 {
        '2'
    } else if d == 3 {
        '3'
    } else if d == 4 {
        '4'
    } else if d == 5 {
        '5'
    } else if d == 6 {
        '6'
    } else if d == 7 {
        '7'
    } else if d == 8 {
        '8'
    } else if d == 9 {
        '9'
    } else if d == 10 {
        'a'
    } else if d == 11 {
        'b'
    } else if d == 12 {
        'c'
    } else if d == 13 {
        'd'
    } else if d == 14 {
        'e'
    } else {
        'f'
    }
}

/// The value of one lowercase hex digit, or `None` for any other character.
fn hex_val(c: char) -> (r: Option<u8>)
    ensures
        match r {
            Some(v) => v < 16 && c == spec_hex_digits()[v as int],
            None => forall|v: int| 0 <= v < 16 ==> c != spec_hex_digits()[v],
        },
{
    match c {
        '0' => Some(0),
        '1' => Some(1),
        '2' => Some(2),
        '3' => Some(3),
        '4' => Some(4),
        '5' => Some(5),
        '6' => Some(6),
        '7' => Some(7),
        '8' => Some(8),
        '9' => Some(9),
        'a' => Some(10),
        'b' => Some(11),
        'c' => Some(12),
        'd' => Some(13),
        'e' => Some(14),
        'f' => Some(15),
        _ => None,
    }
}

/// Relies on `String::push`: appends a single character.
#[verifier::external_body]
pub(crate) fn push_char(s: &mut String, c: char)
    ensures
        final(s)@ == old(s)@.push(c),
{
    s.push(c);
}

/// Renders an identifier in its canonical hyphenated lowercase text form.
pub fn format_id(id: u128) -> (r: String)
    ensures
        r@ == spec_uuid(id),
        r@.len() == 36,
{
    let mut out = String::new();
    let mut p: u128 = 0x1000_0000_0000_0000_0000_0000_0000_0000;
    let mut k: usize = 0;
    let mut pos: usize = 0;

    proof {
        reveal_with_fuel(pow16, 33);
        assert(p as int == pow16(31));
    }

    while pos < 36
        invariant
            pos <= 36,
            k == nibbles_before(pos as int),
            k <= 32,
            k < 32 ==> p as int == pow16((31 - k) as nat),
            out@ =~= spec_uuid(id).take(pos as int),
        decreases 36 - pos,
    {
        if pos == 8 || pos == 13 || pos == 18 || pos == 23 {
            push_char(&mut out, '-');
            assert(spec_uuid(id)[pos as int] == '-');
        } else {
            proof {
                assert(k < 32);
                lemma_pow16_pos((31 - k) as nat);
            }
            let d = ((id / p) % 16) as u8;
            proof {
                lemma_mod_bound(id as int / p as int, 16);
            }
            let c = hex_digit(d);
            push_char(&mut out, c);
            assert(nibbles_before(pos as int) == k);
            assert(spec_uuid(id)[pos as int] == spec_hex_digits()[id_nibble(id, k as int)]);
            proof {
                if k < 31 {
                    assert(pow16((31 - k) as nat) == 16 * pow16((31 - k - 1) as nat));
                    lemma_pow16_pos((31 - k - 1) as nat);
                    lemma_div_denominator(p as int, pow16((31 - k - 1) as nat), 16);
                    assert((16 * pow16((31 - k - 1) as nat)) / 16 == pow16((31 - k - 1) as nat))
                        by (nonlinear_arith)
                        requires
                            pow16((31 - k - 1) as nat) >= 1,
                    ;
                }
            }
            p = p / 16;
            k = k + 1;
        }
        pos = pos + 1;
        assert(spec_uuid(id).take(pos as int) =~= spec_uuid(id).take(pos as int - 1).push(
            spec_uuid(id)[pos as int - 1],
        ));
    }
    assert(out@ =~= spec_uuid(id));
    out
}

/// The numeric value of a big-endian sequence of hex digit values.
pub open spec fn nibbles_value(ns: Seq<int>) -> int
    decreases ns.len(),
{
    if ns.len() == 0 {
        0
    } else {
        nibbles_value(ns.drop_last()) * 16 + ns.last()
    }
}

/// Composing hex digit values and then extracting them gives the digits
/// back.
proof fn lemma_nibbles_value_extract(ns: Seq<int>)
    requires
        forall|j: int| 0 <= j < ns.len() ==> 0 <= #[trigger] ns[j] < 16,
        ns.len() <= 32,
    ensures
        0 <= nibbles_value(ns) < pow16(ns.len() as nat),
        forall|j: int|
            0 <= j < ns.len() ==> (nibbles_value(ns) / pow16(
                (ns.len() - 1 - j) as nat,
            )) % 16 == #[trigger] ns[j],
    decreases ns.len(),
{
    if ns.len() > 0 {
        let m = ns.drop_last();
        let l = ns.last();
        let v = nibbles_value(m);
        lemma_nibbles_value_extract(m);
        let nv = nibbles_value(ns);
        assert(nv == v * 16 + l);
        assert(nv < pow16(ns.len() as nat)) by (nonlinear_arith)
            requires
                v < pow16((ns.len() - 1) as nat),
                0 <= l < 16,
                nv == v * 16 + l,
                pow16(ns.len() as nat) == 16 * pow16((ns.len() - 1) as nat),
        ;
        assert forall|j: int| 0 <= j < ns.len() implies (nv / pow16((ns.len() - 1 - j) as nat))
            % 16 == #[trigger] ns[j] by {
            if j == ns.len() - 1 {
                assert(pow16(0) == 1);
                lemma_mod_multiples_vanish(v, l, 16);
                lemma_small_mod(l as nat, 16);
                assert(nv / 1 == nv);
            } else {
                let e = (ns.len() - 1 - j) as nat;
                assert(pow16(e) == 16 * pow16((e - 1) as nat));
                lemma_pow16_pos((e - 1) as nat);
                lemma_fundamental_div_mod_converse_div(nv, 16, v, l);
                lemma_div_denominator(nv, 16, pow16((e - 1) as nat));
                assert(nv / pow16(e) == v / pow16((e - 1) as nat));
                assert(m[j] == ns[j]);
            }
        }
    }
}

/// Parses the canonical hyphenated lowercase text form of an identifier.
/// Returns `None` for any string that is not exactly the text form of some
/// identifier.
pub fn parse_id(s: &str) -> (r: Option<u128>)
    ensures
        r matches Some(id) ==> s@ == spec_uuid(id),
        r is None ==> forall|id: u128| s@ != spec_uuid(id),
{
    let len = s.unicode_len();
    if len != 36 {
        assert forall|id: u128| s@ != spec_uuid(id) by {}
        return None;
    }
    let mut acc: u128 = 0;
    let ghost mut ns: Seq<int> = Seq::empty();
    let mut k: usize = 0;
    let mut pos: usize = 0;

    proof {
        reveal_with_fuel(pow16, 33);
        assert(pow16(32) == 0x1_0000_0000_0000_0000_0000_0000_0000_0000);
    }

    while pos < 36
        invariant
            s@.len() == 36,
            pos <= 36,
            k == nibbles_before(pos as int),
            k <= 32,
            pow16(32) == 0x1_0000_0000_0000_0000_0000_0000_0000_0000,
            ns.len() == k,
            forall|j: int| 0 <= j < k ==> 0 <= #[trigger] ns[j] < 16,
            acc as int == nibbles_value(ns),
            (acc as int) < pow16(k as nat),
            forall|j: int|
                0 <= j < pos ==> (if is_dash_pos(j) {
                    s@[j] == '-'
                } else {
                    s@[j] == spec_hex_digits()[ns[nibbles_before(j)]]
                }),
        decreases 36 - pos,
    {
        let c = s.get_char(pos);
        if pos == 8 || pos == 13 || pos == 18 || pos == 23 {
            if c != '-' {
                proof {
                    assert forall|id: u128| s@ != spec_uuid(id) by {
                        assert(spec_uuid(id)[pos as int] == '-');
                    }
                }
                return None;
            }
        } else {
            match hex_val(c) {
                Some(v) => {
                    proof {
                        assert(k < 32);
                        assert(pow16((k + 1) as nat) == 16 * pow16(k as nat));
                        assert((acc as int) * 16 + v < pow16((k + 1) as nat)) by (nonlinear_arith)
                            requires
                                (acc as int) < pow16(k as nat),
                                0 <= v < 16,
                                pow16((k + 1) as nat) == 16 * pow16(k as nat),
                        ;
                        lemma_pow16_le((k + 1) as nat, 32);
                    }
                    acc = acc * 16 + (v as u128);
                    proof {
                        let ns0 = ns;
                        ns = ns.push(v as int);
                        assert(ns.drop_last() =~= ns0);
                        assert(nibbles_value(ns) == nibbles_value(ns0) * 16 + v);
                    }
                    k = k + 1;
                },
                None => {
                    proof {
                        assert forall|id: u128| s@ != spec_uuid(id) by {
                            let kk = nibbles_before(pos as int);
                            lemma_pow16_pos((31 - kk) as nat);
                            lemma_mod_bound(id as int / pow16((31 - kk) as nat), 16);
                            assert(spec_uuid(id)[pos as int] == spec_hex_digits()[id_nibble(
                                id,
                                kk,
                            )]);
                        }
                    }
                    return None;
                },
            }
        }
        pos = pos + 1;
    }
    proof {
        lemma_nibbles_value_extract(ns);
        assert forall|p: int| 0 <= p < 36 implies s@[p] == spec_uuid(acc)[p] by {
            if !is_dash_pos(p) {
                let j = nibbles_before(p);
                assert((nibbles_value(ns) / pow16((31 - j) as nat)) % 16 == ns[j]);
            }
        }
        assert(s@ =~= spec_uuid(acc));
    }
    Some(acc)
}

/// Relies on `uuid::Uuid::new_v4`: a randomly generated identifier. Nothing
/// is promised of the value. Aborts only if the operating system's
/// randomness source fails, an environmental failure on par with
/// allocation failure.
#[verifier::external_body]
pub(crate) fn random_id() -> u128 {
    uuid::Uuid::new_v4().as_u128()
}

} // verus!
