//! Segment file names: `<gen>.log` with the generation in canonical decimal.

use vstd::prelude::*;
use vstd::utf8::{decode_utf8, encode_utf8, encode_utf8_decode_utf8, encode_utf8_valid_utf8, is_ascii_chars, is_ascii_chars_encode_utf8, valid_utf8};

verus! {

/// The canonical decimal digits of `n`, as characters.
pub open spec fn dec_chars(n: u64) -> Seq<char>
    decreases n,
{
    if n < 10 {
        seq![((48 + n) as u8) as char]
    } else {
        dec_chars(n / 10).push(((48 + n % 10) as u8) as char)
    }
}

/// The file name the engine gives segment `g`.
pub open spec fn gen_file_chars(g: u64) -> Seq<char> {
    dec_chars(g) + seq!['.', 'l', 'o', 'g']
}

/// Decimal digit characters, at least one, and no leading zero.
pub proof fn lemma_dec_chars_shape(n: u64)
    ensures
        1 <= dec_chars(n).len(),
        forall|i: int| 0 <= i < dec_chars(n).len() ==> '0' <= #[trigger] dec_chars(n)[i] <= '9',
        dec_chars(n).len() > 1 ==> dec_chars(n)[0] != '0',
        n >= 10 ==> dec_chars(n).len() > 1,
    decreases n,
{
    if n >= 10 {
        lemma_dec_chars_shape(n / 10);
    }
}

/// The number a digit string denotes, folded from the left.
pub open spec fn chars_value(s: Seq<char>) -> int
    decreases s.len(),
{
    if s.len() == 0 {
        0
    } else {
        chars_value(s.drop_last()) * 10 + (s.last() as u32 - 48)
    }
}

/// The canonical digits of `n` denote `n`.
pub proof fn lemma_dec_chars_value(n: u64)
    ensures
        chars_value(dec_chars(n)) == n,
    decreases n,
{
    if n < 10 {
        assert(dec_chars(n).drop_last() =~= Seq::<char>::empty());
        let c = ((48 + n) as u8) as char;
        assert(c as u32 == 48 + n);
        assert(chars_value(dec_chars(n)) == chars_value(Seq::<char>::empty()) * 10 + (c as u32
            - 48));
    } else {
        lemma_dec_chars_value(n / 10);
        assert(dec_chars(n).drop_last() =~= dec_chars(n / 10));
        let c = ((48 + n % 10) as u8) as char;
        assert(c as u32 == 48 + n % 10);
        assert(dec_chars(n).last() == c);
    }
}

/// Every prefix of the canonical digits denotes at most the number itself.
pub proof fn lemma_dec_chars_prefix(n: u64, i: int)
    requires
        0 <= i <= dec_chars(n).len(),
    ensures
        0 <= chars_value(dec_chars(n).take(i)) <= n,
    decreases n,
{
    if i == dec_chars(n).len() {
        lemma_dec_chars_value(n);
        assert(dec_chars(n).take(i) =~= dec_chars(n));
    } else if n < 10 {
        assert(dec_chars(n).take(i) =~= Seq::<char>::empty());
    } else {
        assert(dec_chars(n).take(i) =~= dec_chars(n / 10).take(i));
        lemma_dec_chars_prefix(n / 10, i);
    }
}

/// The canonical decimal digits of `n`, as bytes.
pub open spec fn dec_bytes(n: u64) -> Seq<u8>
    decreases n,
{
    if n < 10 {
        seq![(48 + n) as u8]
    } else {
        dec_bytes(n / 10).push((48 + n % 10) as u8)
    }
}

proof fn lemma_dec_bytes_chars(n: u64)
    ensures
        dec_bytes(n).len() == dec_chars(n).len(),
        forall|i: int|
            0 <= i < dec_bytes(n).len() ==> (#[trigger] dec_bytes(n)[i]) as char == dec_chars(
                n,
            )[i] && dec_bytes(n)[i] < 128,
    decreases n,
{
    if n >= 10 {
        lemma_dec_bytes_chars(n / 10);
        assert forall|i: int| 0 <= i < dec_bytes(n).len() implies (#[trigger] dec_bytes(
            n,
        )[i]) as char == dec_chars(n)[i] && dec_bytes(n)[i] < 128 by {
            if i < dec_bytes(n).len() - 1 {
                assert(dec_bytes(n)[i] == dec_bytes(n / 10)[i]);
                assert(dec_chars(n)[i] == dec_chars(n / 10)[i]);
            }
        }
    }
}

/// ASCII bytes decode to their own characters.
pub proof fn lemma_ascii_decode(b: Seq<u8>)
    requires
        forall|i: int| 0 <= i < b.len() ==> #[trigger] b[i] < 128,
    ensures
        valid_utf8(b),
        decode_utf8(b) == b.map_values(|x: u8| x as char),
        decode_utf8(b).len() == b.len(),
        forall|i: int| 0 <= i < b.len() ==> #[trigger] decode_utf8(b)[i] == b[i] as char,
{
    let cs = b.map_values(|x: u8| x as char);
    assert(is_ascii_chars(cs)) by {
        assert forall|i: int| 0 <= i < cs.len() implies '\0' <= #[trigger] cs[i] <= '\u{7f}' by {
            assert(cs[i] == b[i] as char);
        }
    }
    is_ascii_chars_encode_utf8(cs);
    assert(encode_utf8(cs) =~= b) by {
        assert forall|i: int| 0 <= i < cs.len() implies #[trigger] encode_utf8(cs)[i] == b[i] by {
            assert(cs[i] as u8 == encode_utf8(cs)[i]);
            assert(cs[i] == b[i] as char);
        }
    }
    encode_utf8_valid_utf8(cs);
    encode_utf8_decode_utf8(cs);
}

/// Builds the canonical decimal digits of `n`.
fn u64_to_decimal(n: u64) -> (s: Vec<u8>)
    ensures
        s@ == dec_bytes(n),
    decreases n,
{
    if n < 10 {
        let mut v: Vec<u8> = Vec::new();
        v.push((48 + n) as u8);
        proof {
            assert(v@ =~= dec_bytes(n));
        }
        v
    } else {
        let mut v = u64_to_decimal(n / 10);
        v.push((48 + n % 10) as u8);
        proof {
            assert(v@ =~= dec_bytes(n));
        }
        v
    }
}

/// The canonical path of segment `gen` within the store's directory:
/// `<gen>.log`.
pub fn log_path(gen: u64) -> (name: String)
    ensures
        name@ == gen_file_chars(gen),
{
    let mut bytes = u64_to_decimal(gen);
    // ".log", as ASCII bytes
    bytes.push(46);
    bytes.push(108);
    bytes.push(111);
    bytes.push(103);
    proof {
        lemma_dec_bytes_chars(gen);
        assert(forall|i: int| 0 <= i < bytes@.len() ==> #[trigger] bytes@[i] < 128);
        lemma_ascii_decode(bytes@);
        assert(decode_utf8(bytes@) =~= gen_file_chars(gen)) by {
            assert forall|i: int| 0 <= i < bytes@.len() implies #[trigger] decode_utf8(
                bytes@,
            )[i] == gen_file_chars(gen)[i] by {
                if i < dec_bytes(gen).len() {
                    assert(bytes@[i] == dec_bytes(gen)[i]);
                }
            }
        }
    }
    match crate::codec::string_from_utf8(bytes) {
        Some(s) => s,
        None => {
            proof {
                assert(false);
            }
            String::new()
        },
    }
}

/// A nonempty digit string with no leading zero that denotes `v` is the
/// canonical representation of `v`.
proof fn lemma_digits_canonical(s: Seq<char>)
    requires
        s.len() >= 1,
        forall|i: int| 0 <= i < s.len() ==> '0' <= #[trigger] s[i] <= '9',
        s.len() > 1 ==> s[0] != '0',
        0 <= chars_value(s) <= u64::MAX,
    ensures
        dec_chars(chars_value(s) as u64) == s,
    decreases s.len(),
{
    let v = chars_value(s) as u64;
    if s.len() == 1 {
        let c = s[0];
        let u = c as u32;
        assert(s.drop_last() =~= Seq::<char>::empty());
        assert(chars_value(s) == chars_value(s.drop_last()) * 10 + (s.last() as u32 - 48));
        assert(chars_value(s.drop_last()) == 0);
        assert(s.last() == c);
        assert(v == u - 48);
        assert(v < 10);
        assert(((48 + v) as u8) as char == c) by {
            assert((((48 + v) as u8) as char) as u32 == u);
            vstd::utf8::char_u32_cast(c, u);
            vstd::utf8::char_u32_cast(((48 + v) as u8) as char, u);
        }
        assert(dec_chars(v) =~= s);
    } else {
        let init = s.drop_last();
        let d = s.last() as u32 - 48;
        assert(init[0] == s[0]);
        assert(forall|i: int| 0 <= i < init.len() ==> '0' <= #[trigger] init[i] <= '9') by {
            assert(forall|i: int| 0 <= i < init.len() ==> init[i] == s[i]);
        }
        lemma_value_pos(init);
        assert(0 <= chars_value(init) <= u64::MAX);
        lemma_digits_canonical(init);
        let w = chars_value(init) as u64;
        assert(v == w * 10 + d);
        assert(v >= 10);
        assert(v / 10 == w && v % 10 == d);
        assert(((48 + v % 10) as u8) as char == s.last()) by {
            let u = s.last() as u32;
            assert((((48 + d) as u8) as char) as u32 == u);
            vstd::utf8::char_u32_cast(s.last(), u);
            vstd::utf8::char_u32_cast(((48 + d) as u8) as char, u);
        }
        assert(dec_chars(v) =~= s);
    }
}

/// A digit string that does not start with '0' denotes a positive number.
proof fn lemma_value_pos(s: Seq<char>)
    requires
        s.len() >= 1,
        forall|i: int| 0 <= i < s.len() ==> '0' <= #[trigger] s[i] <= '9',
        s[0] != '0',
    ensures
        chars_value(s) >= 1,
        forall|i: int| 1 <= i <= s.len() ==> #[trigger] chars_value(s.take(i)) >= 1,
    decreases s.len(),
{
    assert forall|i: int| 1 <= i <= s.len() implies #[trigger] chars_value(s.take(i)) >= 1 by {
        lemma_value_pos_take(s, i);
    }
    assert(s.take(s.len() as int) =~= s);
    assert(chars_value(s.take(s.len() as int)) >= 1);
}

proof fn lemma_value_pos_take(s: Seq<char>, i: int)
    requires
        1 <= i <= s.len(),
        forall|j: int| 0 <= j < s.len() ==> '0' <= #[trigger] s[j] <= '9',
        s[0] != '0',
    ensures
        chars_value(s.take(i)) >= 1,
    decreases i,
{
    let t = s.take(i);
    assert(t.len() == i);
    assert(chars_value(t) == chars_value(t.drop_last()) * 10 + (t.last() as u32 - 48));
    if i == 1 {
        assert(t.drop_last() =~= Seq::<char>::empty());
        assert(chars_value(t.drop_last()) == 0);
        assert(t.last() == s[0]);
        assert(s[0] as u32 > 48);
    } else {
        lemma_value_pos_take(s, i - 1);
        assert(t.drop_last() =~= s.take(i - 1));
        assert(t.last() == s[i - 1]);
        assert(t.last() as u32 >= 48);
        assert(chars_value(t.drop_last()) >= 1);
    }
}

/// Parses a canonical segment file name `<gen>.log` back to its generation.
/// Names in any other shape, a non-digit, a leading zero, or a value beyond
/// 64 bits, are not segment names and are rejected.
pub fn parse_gen_filename(name: &str) -> (r: Option<u64>)
    ensures
        match r {
            Some(g) => name@ == gen_file_chars(g),
            None => forall|g: u64| name@ != gen_file_chars(g),
        },
{
    let n = name.unicode_len();
    if n < 5 {
        proof {
            assert forall|g: u64| name@ != gen_file_chars(g) by {
                lemma_dec_chars_shape(g);
            }
        }
        return None;
    }
    let c_dot = name.get_char(n - 4);
    let c_l = name.get_char(n - 3);
    let c_o = name.get_char(n - 2);
    let c_g = name.get_char(n - 1);
    if c_dot != '.' || c_l != 'l' || c_o != 'o' || c_g != 'g' {
        proof {
            assert forall|g: u64| name@ != gen_file_chars(g) by {
                lemma_dec_chars_shape(g);
                if name@ == gen_file_chars(g) {
                    let dl = dec_chars(g).len();
                    assert(name@.len() == dl + 4);
                    assert(name@[name@.len() - 4] == '.');
                    assert(name@[name@.len() - 3] == 'l');
                    assert(name@[name@.len() - 2] == 'o');
                    assert(name@[name@.len() - 1] == 'g');
                }
            }
        }
        return None;
    }
    let dn = n - 4;
    let c0 = name.get_char(0);
    if dn > 1 && c0 == '0' {
        proof {
            assert forall|g: u64| name@ != gen_file_chars(g) by {
                lemma_dec_chars_shape(g);
                if name@ == gen_file_chars(g) {
                    assert(name@[0] == dec_chars(g)[0]);
                    assert(dec_chars(g).len() == dn);
                }
            }
        }
        return None;
    }
    let mut i: usize = 0;
    let mut val: u64 = 0;
    while i < dn
        invariant
            0 <= i <= dn,
            1 <= dn,
            n == name@.len(),
            5 <= n,
            dn == n - 4,
            forall|j: int| 0 <= j < i ==> '0' <= #[trigger] name@[j] <= '9',
            val as int == chars_value(name@.take(i as int)),
        decreases dn - i,
    {
        let c = name.get_char(i);
        let u = c as u32;
        if u < 48 || u > 57 {
            proof {
                assert forall|g: u64| name@ != gen_file_chars(g) by {
                    lemma_dec_chars_shape(g);
                    if name@ == gen_file_chars(g) {
                        assert(dec_chars(g).len() == name@.len() - 4);
                        assert(name@[i as int] == dec_chars(g)[i as int]);
                        assert('0' <= name@[i as int] <= '9');
                        assert(48 <= name@[i as int] as u32 <= 57);
                    }
                }
            }
            return None;
        }
        let d = (u - 48) as u64;
        if val > (u64::MAX - d) / 10 {
            proof {
                assert(val * 10 + d > u64::MAX) by (nonlinear_arith)
                    requires
                        val > (u64::MAX - d) / 10,
                        d <= 9,
                ;
                assert forall|g: u64| name@ != gen_file_chars(g) by {
                    lemma_dec_chars_shape(g);
                    if name@ == gen_file_chars(g) {
                        assert(dec_chars(g).len() == name@.len() - 4);
                        assert(name@.take(i as int + 1) =~= dec_chars(g).take(i as int + 1));
                        lemma_dec_chars_prefix(g, i as int + 1);
                        assert(name@.take(i as int + 1).drop_last() =~= name@.take(i as int));
                        assert(name@.take(i as int + 1).last() == name@[i as int]);
                        assert(chars_value(name@.take(i as int + 1)) == val * 10 + d);
                    }
                }
            }
            return None;
        }
        val = val * 10 + d;
        proof {
            assert(name@.take(i as int + 1).drop_last() =~= name@.take(i as int));
            assert(name@.take(i as int + 1).last() == name@[i as int]);
        }
        i += 1;
    }
    proof {
        let digits = name@.take(dn as int);
        assert(forall|j: int| 0 <= j < digits.len() ==> '0' <= #[trigger] digits[j] <= '9') by {
            assert(forall|j: int| 0 <= j < dn ==> digits[j] == name@[j]);
        }
        assert(digits.len() > 1 ==> digits[0] != '0');
        lemma_digits_canonical(digits);
        assert(dec_chars(val) == digits);
        assert(name@ =~= digits + seq!['.', 'l', 'o', 'g']);
        assert(name@ == gen_file_chars(val));
    }
    Some(val)
}

/// True when `gs` holds strictly ascending values.
pub open spec fn gens_ascending(gs: Seq<u64>) -> bool {
    forall|i: int, j: int| 0 <= i < j < gs.len() ==> gs[i] < gs[j]
}

/// True when `g` occurs in `gs`.
pub open spec fn gens_contain(gs: Seq<u64>, g: u64) -> bool {
    exists|j: int| 0 <= j < gs.len() && gs[j] == g
}

/// The generations named by a list of directory entries: every file named
/// `<gen>.log` contributes its generation, once, and the result ascends.
/// Other names are ignored.
pub fn get_sorted_gens(names: &Vec<String>) -> (gens: Vec<u64>)
    ensures
        gens_ascending(gens@),
        forall|g: u64|
            #[trigger] gens_contain(gens@, g) <==> (exists|i: int|
                0 <= i < names@.len() && (#[trigger] names@[i])@ == gen_file_chars(g)),
{
    let n = names.len();
    let mut gens: Vec<u64> = Vec::new();
    let mut i: usize = 0;
    while i < n
        invariant
            n == names@.len(),
            0 <= i <= n,
            gens_ascending(gens@),
            forall|g: u64|
                #[trigger] gens_contain(gens@, g) <==> (exists|j: int|
                    0 <= j < i && (#[trigger] names@[j])@ == gen_file_chars(g)),
        decreases n - i,
    {
        let ghost gens_pre = gens@;
        match parse_gen_filename(names[i].as_str()) {
            Some(g) => {
                insert_ascending(&mut gens, g);
                proof {
                    assert forall|g2: u64| #[trigger] gens_contain(gens@, g2) implies (exists|
                        j: int,
                    | 0 <= j < i + 1 && (#[trigger] names@[j])@ == gen_file_chars(g2)) by {
                        if g2 == g {
                            assert(names@[i as int]@ == gen_file_chars(g2));
                        } else {
                            assert(gens_contain(gens_pre, g2));
                        }
                    }
                    assert forall|g2: u64| (exists|j: int|
                        0 <= j < i + 1 && (#[trigger] names@[j])@ == gen_file_chars(g2)) implies
                        #[trigger] gens_contain(gens@, g2) by {
                        let w = choose|j: int|
                            0 <= j < i + 1 && (#[trigger] names@[j])@ == gen_file_chars(g2);
                        if w < i {
                            assert(gens_contain(gens_pre, g2));
                        } else {
                            assert(gen_file_chars(g2) == gen_file_chars(g));
                            if g2 != g {
                                lemma_dec_chars_shape(g2);
                                lemma_dec_chars_value(g2);
                                lemma_dec_chars_shape(g);
                                lemma_dec_chars_value(g);
                                lemma_digits_canonical(dec_chars(g));
                                assert(dec_chars(g2) =~= gen_file_chars(g2).take(
                                    gen_file_chars(g2).len() - 4,
                                ));
                                assert(dec_chars(g) =~= gen_file_chars(g).take(
                                    gen_file_chars(g).len() - 4,
                                ));
                                assert(dec_chars(g2) == dec_chars(g));
                                lemma_dec_chars_value(g);
                                assert(false);
                            }
                        }
                    }
                }
            },
            None => {
                proof {
                    assert forall|g2: u64| (exists|j: int|
                        0 <= j < i + 1 && (#[trigger] names@[j])@ == gen_file_chars(g2)) implies
                        #[trigger] gens_contain(gens@, g2) by {
                        let w = choose|j: int|
                            0 <= j < i + 1 && (#[trigger] names@[j])@ == gen_file_chars(g2);
                        assert(w < i);
                    }
                }
            },
        }
        i += 1;
    }
    gens
}

/// Inserts `g` into an ascending list, keeping it ascending; a value already
/// present stays single.
fn insert_ascending(gens: &mut Vec<u64>, g: u64)
    requires
        gens_ascending(old(gens)@),
    ensures
        gens_ascending(final(gens)@),
        forall|g2: u64|
            #[trigger] gens_contain(final(gens)@, g2) <==> (gens_contain(old(gens)@, g2) || g2
                == g),
{
    let ghost pre = gens@;
    let n = gens.len();
    let mut i: usize = 0;
    while i < n
        invariant
            pre == old(gens)@,
            pre == gens@,
            n == gens@.len(),
            0 <= i <= n,
            gens_ascending(gens@),
            forall|j: int| 0 <= j < i ==> gens@[j] < g,
        decreases n - i,
    {
        if gens[i] == g {
            proof {
                assert(gens_contain(gens@, g)) by {
                    assert(gens@[i as int] == g);
                }
            }
            return;
        }
        if gens[i] > g {
            gens.insert(i, g);
            proof {
                assert(gens@ == pre.insert(i as int, g));
                assert forall|a: int, b: int| 0 <= a < b < gens@.len() implies gens@[a]
                    < gens@[b] by {
                    let a0 = if a < i { a } else { a - 1 };
                    let b0 = if b < i { b } else { b - 1 };
                    if a == i {
                        assert(gens@[b] == pre[b - 1]);
                        assert(pre[b - 1] >= pre[i as int]);
                    } else if b == i {
                        assert(gens@[a] == pre[a]);
                    } else {
                        assert(gens@[a] == pre[a0] && gens@[b] == pre[b0]);
                    }
                }
                assert forall|g2: u64| #[trigger] gens_contain(gens@, g2) implies (gens_contain(
                    pre,
                    g2,
                ) || g2 == g) by {
                    let w = choose|j: int| 0 <= j < gens@.len() && gens@[j] == g2;
                    if w != i {
                        let w0 = if w < i { w } else { w - 1 };
                        assert(pre[w0] == g2);
                    }
                }
                assert forall|g2: u64| (gens_contain(pre, g2) || g2 == g) implies
                    #[trigger] gens_contain(gens@, g2) by {
                    if g2 == g {
                        assert(gens@[i as int] == g2);
                    } else {
                        let w = choose|j: int| 0 <= j < pre.len() && pre[j] == g2;
                        if w < i {
                            assert(gens@[w] == g2);
                        } else {
                            assert(gens@[w + 1] == g2);
                        }
                    }
                }
            }
            return;
        }
        i += 1;
    }
    gens.push(g);
    proof {
        assert(gens@ == pre.push(g));
        assert forall|a: int, b: int| 0 <= a < b < gens@.len() implies gens@[a] < gens@[b] by {
            if b < gens@.len() - 1 {
                assert(gens@[a] == pre[a] && gens@[b] == pre[b]);
            } else {
                assert(gens@[a] == pre[a]);
            }
        }
        assert forall|g2: u64| #[trigger] gens_contain(gens@, g2) implies (gens_contain(pre, g2)
            || g2 == g) by {
            let w = choose|j: int| 0 <= j < gens@.len() && gens@[j] == g2;
            if w < gens@.len() - 1 {
                assert(pre[w] == g2);
            }
        }
        assert forall|g2: u64| (gens_contain(pre, g2) || g2 == g) implies #[trigger] gens_contain(
            gens@,
            g2,
        ) by {
            if g2 == g {
                assert(gens@[gens@.len() - 1] == g2);
            } else {
                let w = choose|j: int| 0 <= j < pre.len() && pre[j] == g2;
                assert(gens@[w] == g2);
            }
        }
    }
}

} // verus!
