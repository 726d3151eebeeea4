//! Canonical JSON text for [`Value`] trees.
//!
//! The canonical form has no whitespace, keeps object entries in order, and
//! escapes `"`, `\` and every character outside printable ASCII with `\u`
//! sequences (a surrogate pair for supplementary characters), so the text is
//! pure ASCII. `encode_value` produces exactly this form and `decode_value`
//! restores the value from it.

use vstd::prelude::*;

use crate::text::{digit_char_spec, digits_of, int_chars, int_to_chars, is_digit, lemma_digits_of,
    parse_u64, val_of};
use crate::value::{arr_view, lemma_arr_view, lemma_obj_view, obj_view, Entry, Value, ValueSpec};

verus! {

broadcast use vstd::seq::axiom_seq_index_decreases, vstd::seq::axiom_seq_subrange_decreases, vstd::std_specs::vec::axiom_vec_decreases_to_view, vstd::std_specs::vec::axiom_spec_len;

/// One hexadecimal digit, lower case.
pub open spec fn hex_digit_spec(d: nat) -> char {
    if d < 10 {
        ((48 + d) as u8) as char
    } else {
        ((87 + d) as u8) as char
    }
}

/// Whether `c` is a lower-case hexadecimal digit.
pub open spec fn is_hex_digit(c: char) -> bool {
    ('0' <= c && c <= '9') || ('a' <= c && c <= 'f')
}

/// The numeric value of a hexadecimal digit character.
pub open spec fn hex_val(c: char) -> nat {
    if '0' <= c && c <= '9' {
        (c as nat - 48) as nat
    } else {
        (c as nat - 87) as nat
    }
}

/// Four hexadecimal digits for a code below 2^16, most significant first.
pub open spec fn hex4(n: nat) -> Seq<char> {
    seq![
        hex_digit_spec(n / 4096 % 16),
        hex_digit_spec(n / 256 % 16),
        hex_digit_spec(n / 16 % 16),
        hex_digit_spec(n % 16),
    ]
}

/// The canonical escape of one string character.
pub open spec fn esc_char(c: char) -> Seq<char> {
    if c == '"' {
        seq!['\\', '"']
    } else if c == '\\' {
        seq!['\\', '\\']
    } else if 0x20 <= (c as nat) && (c as nat) < 0x7f {
        seq![c]
    } else if (c as nat) < 0x10000 {
        seq!['\\', 'u'] + hex4(c as nat)
    } else {
        seq!['\\', 'u'] + hex4(0xD800 + ((c as nat) - 0x10000) as nat / 0x400) + seq!['\\', 'u']
            + hex4(0xDC00 + ((c as nat) - 0x10000) as nat % 0x400)
    }
}

/// The canonical text of a string body (without the surrounding quotes).
pub open spec fn ser_str(s: Seq<char>) -> Seq<char>
    decreases s.len(),
{
    if s.len() == 0 {
        Seq::empty()
    } else {
        esc_char(s[0]) + ser_str(s.subrange(1, s.len() as int))
    }
}

/// The canonical text of a value.
pub open spec fn ser(v: ValueSpec) -> Seq<char>
    decreases v,
{
    match v {
        ValueSpec::Null => seq!['n', 'u', 'l', 'l'],
        ValueSpec::Bool(b) => if b {
            seq!['t', 'r', 'u', 'e']
        } else {
            seq!['f', 'a', 'l', 's', 'e']
        },
        ValueSpec::Int(i) => int_chars(i),
        ValueSpec::Str(s) => seq!['"'] + ser_str(s) + seq!['"'],
        ValueSpec::Arr(items) => seq!['['] + ser_arr(items) + seq![']'],
        ValueSpec::Obj(entries) => seq!['{'] + ser_obj(entries) + seq!['}'],
    }
}

/// The canonical text of array elements, separated by commas.
pub open spec fn ser_arr(items: Seq<ValueSpec>) -> Seq<char>
    decreases items,
{
    if items.len() == 0 {
        Seq::empty()
    } else if items.len() == 1 {
        ser(items[0])
    } else {
        ser(items[0]) + seq![','] + ser_arr(items.subrange(1, items.len() as int))
    }
}

/// The canonical text of one object entry.
pub open spec fn ser_entry(e: (Seq<char>, ValueSpec)) -> Seq<char>
    decreases e,
{
    seq!['"'] + ser_str(e.0) + seq!['"', ':'] + ser(e.1)
}

/// The canonical text of object entries, separated by commas.
pub open spec fn ser_obj(entries: Seq<(Seq<char>, ValueSpec)>) -> Seq<char>
    decreases entries,
{
    if entries.len() == 0 {
        Seq::empty()
    } else if entries.len() == 1 {
        ser_entry(entries[0])
    } else {
        ser_entry(entries[0]) + seq![','] + ser_obj(entries.subrange(1, entries.len() as int))
    }
}

/// Values whose integers fit in 64 bits; every `Value` denotes one.
pub open spec fn wf_value(v: ValueSpec) -> bool
    decreases v,
{
    match v {
        ValueSpec::Null => true,
        ValueSpec::Bool(_) => true,
        ValueSpec::Int(i) => i64::MIN <= i <= i64::MAX,
        ValueSpec::Str(_) => true,
        ValueSpec::Arr(items) => forall|i: int|
            0 <= i < items.len() ==> wf_value(#[trigger] items[i]),
        ValueSpec::Obj(entries) => forall|i: int|
            0 <= i < entries.len() ==> wf_value(#[trigger] (entries[i]).1),
    }
}

/// The view of every value is well formed.
pub proof fn lemma_view_wf(v: Value)
    ensures
        wf_value(v.view_spec()),
    decreases v,
{
    match v {
        Value::Arr(items) => {
            lemma_arr_view(items@);
            assert forall|i: int| 0 <= i < items@.len() implies wf_value(
                #[trigger] arr_view(items@)[i],
            ) by {
                assert(decreases_to!(v => items));
                assert(decreases_to!(items => items@));
                assert(decreases_to!(items@ => items@[i]));
                lemma_view_wf(items@[i]);
            }
        },
        Value::Obj(entries) => {
            lemma_obj_view(entries@);
            assert forall|i: int| 0 <= i < entries@.len() implies wf_value(
                #[trigger] obj_view(entries@)[i].1,
            ) by {
                assert(decreases_to!(v => entries));
                assert(decreases_to!(entries => entries@));
                assert(decreases_to!(entries@ => entries@[i]));
                assert(decreases_to!(entries@[i] => entries@[i].value));
                lemma_view_wf(entries@[i].value);
            }
        },
        _ => {},
    }
}

/// One hexadecimal digit character.
fn hex_digit(d: u32) -> (c: char)
    requires
        d < 16,
    ensures
        c == hex_digit_spec(d as nat),
{
    if d < 10 {
        ((48 + d as u8)) as char
    } else {
        ((87 + d as u8)) as char
    }
}

/// Appends the four hexadecimal digits of `n`.
#[verifier::loop_isolation(false)]
fn push_hex4(out: &mut Vec<char>, n: u32)
    requires
        n < 0x10000,
    ensures
        final(out)@ == old(out)@ + hex4(n as nat),
{
    out.push(hex_digit(n / 4096 % 16));
    out.push(hex_digit(n / 256 % 16));
    out.push(hex_digit(n / 16 % 16));
    out.push(hex_digit(n % 16));
    proof {
        assert(out@ =~= old(out)@ + hex4(n as nat));
    }
}

/// Appends the canonical escape of one character.
#[verifier::loop_isolation(false)]
fn push_esc(out: &mut Vec<char>, c: char)
    ensures
        final(out)@ == old(out)@ + esc_char(c),
{
    let code = c as u32;
    if c == '"' {
        out.push('\\');
        out.push('"');
        proof {
            assert(out@ =~= old(out)@ + esc_char(c));
        }
    } else if c == '\\' {
        out.push('\\');
        out.push('\\');
        proof {
            assert(out@ =~= old(out)@ + esc_char(c));
        }
    } else if 0x20 <= code && code < 0x7f {
        out.push(c);
        proof {
            assert(out@ =~= old(out)@ + esc_char(c));
        }
    } else if code < 0x10000 {
        out.push('\\');
        out.push('u');
        push_hex4(out, code);
        proof {
            assert(out@ =~= old(out)@ + esc_char(c));
        }
    } else {
        let rem = code - 0x10000;
        out.push('\\');
        out.push('u');
        push_hex4(out, 0xD800 + rem / 0x400);
        out.push('\\');
        out.push('u');
        push_hex4(out, 0xDC00 + rem % 0x400);
        proof {
            assert(out@ =~= old(out)@ + esc_char(c));
        }
    }
}

/// Appends the canonical text of a string body.
#[verifier::loop_isolation(false)]
fn push_str_body(out: &mut Vec<char>, s: &Vec<char>)
    ensures
        final(out)@ == old(out)@ + ser_str(s@),
{
    let mut i: usize = 0;
    while i < s.len()
        invariant
            i <= s@.len(),
            out@ == old(out)@ + ser_str(s@.subrange(0, i as int)),
        decreases s@.len() - i,
    {
        push_esc(out, s[i]);
        proof {
            lemma_ser_str_snoc(s@.subrange(0, i as int), s@[i as int]);
            assert(s@.subrange(0, i as int).push(s@[i as int]) =~= s@.subrange(0, i + 1 as int));
        }
        i = i + 1;
    }
    proof {
        assert(s@.subrange(0, s@.len() as int) =~= s@);
    }
}

/// Serializing one more character appends its escape.
pub proof fn lemma_ser_str_snoc(s: Seq<char>, c: char)
    ensures
        ser_str(s.push(c)) == ser_str(s) + esc_char(c),
    decreases s.len(),
{
    if s.len() == 0 {
        assert(s.push(c)[0] == c);
        assert(s.push(c).len() == 1);
        assert(s.push(c).subrange(1, 1) =~= Seq::<char>::empty());
        assert(ser_str(s.push(c).subrange(1, 1)) =~= Seq::<char>::empty());
        assert(ser_str(s.push(c)) == esc_char(s.push(c)[0]) + ser_str(s.push(c).subrange(1, 1)));
        assert(ser_str(s.push(c)) =~= esc_char(c));
        assert(ser_str(s) + esc_char(c) =~= esc_char(c));
    } else {
        assert(s.push(c)[0] == s[0]);
        assert(s.push(c).subrange(1, s.len() as int + 1) =~= s.subrange(1, s.len() as int).push(c));
        lemma_ser_str_snoc(s.subrange(1, s.len() as int), c);
        assert(ser_str(s.push(c)) =~= ser_str(s) + esc_char(c));
    }
}

/// Appends the canonical text of a value.
#[verifier::loop_isolation(false)]
#[verifier::rlimit(60)]
pub fn push_value(out: &mut Vec<char>, v: &Value)
    ensures
        final(out)@ == old(out)@ + ser(v.view_spec()),
    decreases v,
{
    match v {
        Value::Null => {
            out.push('n');
            out.push('u');
            out.push('l');
            out.push('l');
            proof {
                assert(out@ =~= old(out)@ + ser(v.view_spec()));
            }
        },
        Value::Bool(b) => {
            if *b {
                out.push('t');
                out.push('r');
                out.push('u');
                out.push('e');
            } else {
                out.push('f');
                out.push('a');
                out.push('l');
                out.push('s');
                out.push('e');
            }
            proof {
                assert(out@ =~= old(out)@ + ser(v.view_spec()));
            }
        },
        Value::Int(i) => {
            let digits = crate::text::int_to_chars(*i);
            let mut k: usize = 0;
            while k < digits.len()
                invariant
                    k <= digits@.len(),
                    out@ == old(out)@ + digits@.subrange(0, k as int),
                decreases digits@.len() - k,
            {
                out.push(digits[k]);
                proof {
                    assert(out@ =~= old(out)@ + digits@.subrange(0, k + 1 as int));
                }
                k = k + 1;
            }
            proof {
                assert(digits@.subrange(0, digits@.len() as int) =~= digits@);
            }
        },
        Value::Str(s) => {
            let chars = crate::text::string_chars(s);
            out.push('"');
            push_str_body(out, &chars);
            out.push('"');
            proof {
                assert(out@ =~= old(out)@ + ser(v.view_spec()));
            }
        },
        Value::Arr(items) => {
            out.push('[');
            let ghost base = out@;
            let n = items.len();
            let mut i: usize = 0;
            while i < n
                invariant
                    i <= n,
                    n == items@.len(),
                    out@ + arr_tail(arr_view(items@), i as int) == base + ser_arr(
                        arr_view(items@),
                    ),
                decreases n - i,
            {
                proof {
                    lemma_arr_view(items@);
                    assert(decreases_to!(*v => *items));
                    assert(decreases_to!(*items => items@));
                    assert(decreases_to!(items@ => items@[i as int]));
                }
                if i > 0 {
                    out.push(',');
                }
                push_value(out, &items[i]);
                proof {
                    lemma_arr_tail_step(arr_view(items@), i as int);
                    assert(out@ + arr_tail(arr_view(items@), i + 1 as int) =~= base + ser_arr(
                        arr_view(items@),
                    ));
                }
                i = i + 1;
            }
            out.push(']');
            proof {
                lemma_arr_view(items@);
                assert(arr_tail(arr_view(items@), n as int) =~= Seq::<char>::empty());
                assert(out@ =~= old(out)@ + ser(v.view_spec()));
            }
        },
        Value::Obj(entries) => {
            out.push('{');
            let ghost base = out@;
            let n = entries.len();
            let mut i: usize = 0;
            while i < n
                invariant
                    i <= n,
                    n == entries@.len(),
                    out@ + obj_tail(obj_view(entries@), i as int) == base + ser_obj(
                        obj_view(entries@),
                    ),
                decreases n - i,
            {
                proof {
                    lemma_obj_view(entries@);
                    assert(decreases_to!(*v => *entries));
                    assert(decreases_to!(*entries => entries@));
                    assert(decreases_to!(entries@ => entries@[i as int]));
                    assert(decreases_to!(entries@[i as int] => entries@[i as int].value));
                }
                if i > 0 {
                    out.push(',');
                }
                let keychars = crate::text::string_chars(&entries[i].key);
                out.push('"');
                push_str_body(out, &keychars);
                out.push('"');
                out.push(':');
                push_value(out, &entries[i].value);
                proof {
                    lemma_obj_tail_step(obj_view(entries@), i as int);
                    assert(out@ + obj_tail(obj_view(entries@), i + 1 as int) =~= base + ser_obj(
                        obj_view(entries@),
                    ));
                }
                i = i + 1;
            }
            out.push('}');
            proof {
                lemma_obj_view(entries@);
                assert(obj_tail(obj_view(entries@), n as int) =~= Seq::<char>::empty());
                assert(out@ =~= old(out)@ + ser(v.view_spec()));
            }
        },
    }
}

/// What is still to be written after the first `i` array elements.
pub open spec fn arr_tail(items: Seq<ValueSpec>, i: int) -> Seq<char> {
    if i >= items.len() {
        Seq::empty()
    } else if i == 0 {
        ser_arr(items)
    } else {
        seq![','] + ser_arr(items.subrange(i, items.len() as int))
    }
}

/// Writing element `i` turns one tail into the next.
pub proof fn lemma_arr_tail_step(items: Seq<ValueSpec>, i: int)
    requires
        0 <= i < items.len(),
    ensures
        arr_tail(items, i) == (if i == 0 {
            Seq::<char>::empty()
        } else {
            seq![',']
        }) + ser(items[i]) + arr_tail(items, i + 1),
    decreases items.len() - i,
{
    let suffix = items.subrange(i, items.len() as int);
    assert(suffix[0] == items[i]);
    if i + 1 < items.len() {
        assert(suffix.subrange(1, suffix.len() as int) =~= items.subrange(
            i + 1,
            items.len() as int,
        ));
        if i == 0 {
            assert(items.subrange(0, items.len() as int) =~= items);
            assert(arr_tail(items, i) =~= ser(items[i]) + arr_tail(items, i + 1));
        } else {
            assert(arr_tail(items, i) =~= seq![','] + ser(items[i]) + arr_tail(items, i + 1));
        }
    } else {
        assert(suffix.len() == 1);
        if i == 0 {
            assert(items.subrange(0, items.len() as int) =~= items);
            assert(arr_tail(items, i) =~= ser(items[i]) + arr_tail(items, i + 1));
        } else {
            assert(arr_tail(items, i) =~= seq![','] + ser(items[i]) + arr_tail(items, i + 1));
        }
    }
}

/// What is still to be written after the first `i` object entries.
pub open spec fn obj_tail(entries: Seq<(Seq<char>, ValueSpec)>, i: int) -> Seq<char> {
    if i >= entries.len() {
        Seq::empty()
    } else if i == 0 {
        ser_obj(entries)
    } else {
        seq![','] + ser_obj(entries.subrange(i, entries.len() as int))
    }
}

/// Writing entry `i` turns one tail into the next.
pub proof fn lemma_obj_tail_step(entries: Seq<(Seq<char>, ValueSpec)>, i: int)
    requires
        0 <= i < entries.len(),
    ensures
        obj_tail(entries, i) == (if i == 0 {
            Seq::<char>::empty()
        } else {
            seq![',']
        }) + ser_entry(entries[i]) + obj_tail(entries, i + 1),
    decreases entries.len() - i,
{
    let suffix = entries.subrange(i, entries.len() as int);
    assert(suffix[0] == entries[i]);
    if i + 1 < entries.len() {
        assert(suffix.subrange(1, suffix.len() as int) =~= entries.subrange(
            i + 1,
            entries.len() as int,
        ));
        if i == 0 {
            assert(entries.subrange(0, entries.len() as int) =~= entries);
            assert(obj_tail(entries, i) =~= ser_entry(entries[i]) + obj_tail(entries, i + 1));
        } else {
            assert(obj_tail(entries, i) =~= seq![','] + ser_entry(entries[i]) + obj_tail(
                entries,
                i + 1,
            ));
        }
    } else {
        assert(suffix.len() == 1);
        if i == 0 {
            assert(entries.subrange(0, entries.len() as int) =~= entries);
            assert(obj_tail(entries, i) =~= ser_entry(entries[i]) + obj_tail(entries, i + 1));
        } else {
            assert(obj_tail(entries, i) =~= seq![','] + ser_entry(entries[i]) + obj_tail(
                entries,
                i + 1,
            ));
        }
    }
}

/// The canonical text of a value, as characters.
pub fn encode_value(v: &Value) -> (out: Vec<char>)
    ensures
        out@ == ser(v.view_spec()),
{
    let mut out: Vec<char> = Vec::new();
    push_value(&mut out, v);
    out
}

// ===== Parsing =====

/// The text from `pos` on is the canonical form of a string body, the
/// closing quote, and a remainder.
pub open spec fn str_hyp(s: Seq<char>, pos: int, cs: Seq<char>, rest: Seq<char>) -> bool {
    s.subrange(pos, s.len() as int) == ser_str(cs) + seq!['"'] + rest
}

/// The first UTF-16 code unit of a supplementary character's escape.
pub open spec fn high_unit(n: nat) -> nat {
    (0xD800 + (n - 0x10000) as nat / 0x400) as nat
}

/// The second UTF-16 code unit of a supplementary character's escape.
pub open spec fn low_unit(n: nat) -> nat {
    (0xDC00 + (n - 0x10000) as nat % 0x400) as nat
}

/// Shape facts about character escapes, enough to drive a parser.
pub proof fn lemma_esc_char(c: char)
    ensures
        (c as u32) as nat == c as nat,
        (c as nat) < 0xD800 || (0xE000 <= (c as nat) && (c as nat) <= 0x10FFFF),
        esc_char(c).len() >= 1,
        esc_char(c)[0] != '"',
        esc_char(c)[0] != '\\' ==> esc_char(c) == seq![c] && c != '"' && c != '\\',
        esc_char(c)[0] == '\\' ==> esc_char(c).len() >= 2 && (esc_char(c)[1] == '"' || esc_char(
            c,
        )[1] == '\\' || esc_char(c)[1] == 'u'),
        esc_char(c)[0] == '\\' && esc_char(c)[1] == '"' ==> c == '"' && esc_char(c).len() == 2,
        esc_char(c)[0] == '\\' && esc_char(c)[1] == '\\' ==> c == '\\' && esc_char(c).len() == 2,
        esc_char(c)[0] == '\\' && esc_char(c)[1] == 'u' && (c as nat) < 0x10000 ==> esc_char(c)
            =~= seq!['\\', 'u'] + hex4(c as nat) && esc_char(c).len() == 6 && ((c as nat) < 0xD800
            || (c as nat) >= 0xE000),
        esc_char(c)[0] == '\\' && esc_char(c)[1] == 'u' && (c as nat) >= 0x10000 ==> esc_char(c)
            =~= seq!['\\', 'u'] + hex4(high_unit(c as nat)) + seq!['\\', 'u'] + hex4(
            low_unit(c as nat),
        ) && esc_char(c).len() == 12 && (c as nat) <= 0x10FFFF,
{
    let n = c as nat;
    assert(n < 0xD800 || (0xE000 <= n && n <= 0x10FFFF));
    if c == '"' {
    } else if c == '\\' {
    } else if 0x20 <= n && n < 0x7f {
    } else if n < 0x10000 {
        assert(esc_char(c) =~= seq!['\\', 'u'] + hex4(n));
    } else {
        assert(esc_char(c) =~= seq!['\\', 'u'] + hex4(high_unit(n)) + seq!['\\', 'u'] + hex4(
            low_unit(n),
        ));
    }
}

/// Bounds of the two code units and their recombination.
pub proof fn lemma_units(n: nat)
    requires
        0x10000 <= n <= 0x10FFFF,
    ensures
        0xD800 <= high_unit(n) < 0xDC00,
        0xDC00 <= low_unit(n) < 0xE000,
        0x10000 + (high_unit(n) - 0xD800) * 0x400 + (low_unit(n) - 0xDC00) == n,
{
    let r = (n - 0x10000) as nat;
    assert(r < 0x100000);
    assert(r / 0x400 < 0x400) by (nonlinear_arith)
        requires r < 0x100000;
    assert(r % 0x400 < 0x400);
    assert((r / 0x400) * 0x400 + r % 0x400 == r) by (nonlinear_arith);
}

/// Under the string hypothesis with a nonempty body, character `i` of the
/// text is character `i` of the first escape.
proof fn lemma_hyp_esc_index(s: Seq<char>, pos: int, cs: Seq<char>, rest: Seq<char>, i: int)
    requires
        0 <= pos <= s.len(),
        str_hyp(s, pos, cs, rest),
        cs.len() > 0,
        0 <= i < esc_char(cs[0]).len(),
    ensures
        pos + esc_char(cs[0]).len() + 1 <= s.len(),
        s[pos + i] == esc_char(cs[0])[i],
{
    let suffix = s.subrange(pos, s.len() as int);
    let e = esc_char(cs[0]);
    let cs1 = cs.subrange(1, cs.len() as int);
    assert(ser_str(cs) == e + ser_str(cs1));
    assert(suffix.len() == ser_str(cs).len() + 1 + rest.len());
    assert(ser_str(cs).len() >= e.len());
    assert(suffix[i] == (ser_str(cs) + seq!['"'] + rest)[i]);
    assert((ser_str(cs) + seq!['"'] + rest)[i] == ser_str(cs)[i]);
    assert(ser_str(cs)[i] == e[i]);
    assert(suffix[i] == s[pos + i]);
}

/// Under the string hypothesis with a nonempty body, the text after the
/// first escape is again a string body followed by the quote.
proof fn lemma_hyp_esc_step(s: Seq<char>, pos: int, cs: Seq<char>, rest: Seq<char>)
    requires
        0 <= pos <= s.len(),
        str_hyp(s, pos, cs, rest),
        cs.len() > 0,
    ensures
        str_hyp(s, pos + esc_char(cs[0]).len(), cs.subrange(1, cs.len() as int), rest),
        pos + esc_char(cs[0]).len() <= s.len(),
        ser_str(cs).len() == esc_char(cs[0]).len() + ser_str(
            cs.subrange(1, cs.len() as int),
        ).len(),
{
    let e = esc_char(cs[0]);
    let cs1 = cs.subrange(1, cs.len() as int);
    assert(ser_str(cs) == e + ser_str(cs1));
    let suffix = s.subrange(pos, s.len() as int);
    assert(suffix.len() == ser_str(cs).len() + 1 + rest.len());
    let tail = ser_str(cs1) + seq!['"'] + rest;
    assert(ser_str(cs) + seq!['"'] + rest =~= e + tail);
    assert(suffix == e + tail);
    assert forall|j: int| 0 <= j < tail.len() implies s.subrange(
        pos + e.len(),
        s.len() as int,
    )[j] == tail[j] by {
        assert(suffix[e.len() + j] == (e + tail)[e.len() + j]);
        assert((e + tail)[e.len() + j] == tail[j]);
        assert(suffix[e.len() + j] == s[pos + e.len() + j]);
        assert(s.subrange(pos + e.len(), s.len() as int)[j] == s[pos + e.len() + j]);
    }
    assert(s.subrange(pos + e.len(), s.len() as int) =~= tail);
}

/// The four digits of `hex4` are hexadecimal digits and recombine to the
/// encoded code.
pub proof fn lemma_hex4_roundtrip(m: nat)
    requires
        m < 0x10000,
    ensures
        hex4(m).len() == 4,
        forall|i: int| 0 <= i < 4 ==> is_hex_digit(#[trigger] hex4(m)[i]),
        hex_val(hex4(m)[0]) * 4096 + hex_val(hex4(m)[1]) * 256 + hex_val(hex4(m)[2]) * 16
            + hex_val(hex4(m)[3]) == m,
{
    let d0 = m / 4096 % 16;
    let d1 = m / 256 % 16;
    let d2 = m / 16 % 16;
    let d3 = m % 16;
    assert forall|i: int| 0 <= i < 4 implies is_hex_digit(#[trigger] hex4(m)[i]) by {
        assert(hex4(m)[0] == hex_digit_spec(d0));
        assert(hex4(m)[1] == hex_digit_spec(d1));
        assert(hex4(m)[2] == hex_digit_spec(d2));
        assert(hex4(m)[3] == hex_digit_spec(d3));
    }
    assert(hex_val(hex_digit_spec(d0)) == d0);
    assert(hex_val(hex_digit_spec(d1)) == d1);
    assert(hex_val(hex_digit_spec(d2)) == d2);
    assert(hex_val(hex_digit_spec(d3)) == d3);
    assert(d0 * 4096 + d1 * 256 + d2 * 16 + d3 == m) by (nonlinear_arith)
        requires
            d0 == m / 4096 % 16,
            d1 == m / 256 % 16,
            d2 == m / 16 % 16,
            d3 == m % 16,
            m < 0x10000,
    ;
}

/// Reads one hexadecimal digit.
fn hex_digit_val(c: char) -> (r: Option<u32>)
    ensures
        is_hex_digit(c) ==> r == Some(hex_val(c) as u32),
        r is Some ==> is_hex_digit(c) && r->0 as nat == hex_val(c),
{
    let code = c as u32;
    if 48 <= code && code <= 57 {
        Some(code - 48)
    } else if 97 <= code && code <= 102 {
        Some(code - 87)
    } else {
        None
    }
}

/// Reads four hexadecimal digits starting at `pos`.
fn parse_hex4(s: &Vec<char>, pos: usize) -> (r: Option<u32>)
    requires
        pos <= s@.len(),
    ensures
        pos + 4 <= s@.len() && is_hex_digit(s@[pos as int]) && is_hex_digit(s@[pos + 1])
            && is_hex_digit(s@[pos + 2]) && is_hex_digit(s@[pos + 3]) ==> r is Some,
        r matches Some(n) ==> pos + 4 <= s@.len() && n < 0x10000 && n as nat == hex_val(
            s@[pos as int],
        ) * 4096 + hex_val(s@[pos + 1]) * 256 + hex_val(s@[pos + 2]) * 16 + hex_val(s@[pos + 3]),
{
    if s.len() - pos < 4 {
        return None;
    }
    let d0 = hex_digit_val(s[pos]);
    let d1 = hex_digit_val(s[pos + 1]);
    let d2 = hex_digit_val(s[pos + 2]);
    let d3 = hex_digit_val(s[pos + 3]);
    match (d0, d1, d2, d3) {
        (Some(a), Some(b), Some(c), Some(d)) => Some(a * 4096 + b * 256 + c * 16 + d),
        _ => None,
    }
}

/// Relies on `char::from_u32`: `Some` exactly for Unicode scalar values,
/// and the returned character has the given code.
#[verifier::external_body]
fn char_from_u32(code: u32) -> (r: Option<char>)
    ensures
        r matches Some(c) ==> c as u32 == code && c as nat == code as nat,
        (code < 0xD800 || (0xE000 <= code && code <= 0x10FFFF)) ==> r is Some,
{
    char::from_u32(code)
}

/// What the text promises about the first `\u` group when it encodes `c`.
pub open spec fn first_unit_facts(s: Seq<char>, pos: int, c: char) -> bool {
    let m: nat = if (c as nat) < 0x10000 {
        c as nat
    } else {
        high_unit(c as nat)
    };
    pos + 6 <= s.len() && is_hex_digit(s[pos + 2]) && is_hex_digit(s[pos + 3]) && is_hex_digit(
        s[pos + 4],
    ) && is_hex_digit(s[pos + 5]) && hex_val(s[pos + 2]) * 4096 + hex_val(s[pos + 3]) * 256
        + hex_val(s[pos + 4]) * 16 + hex_val(s[pos + 5]) == m
}

/// What the text promises about the second `\u` group when it encodes a
/// supplementary character `c`.
pub open spec fn second_unit_facts(s: Seq<char>, pos: int, c: char) -> bool {
    pos + 12 <= s.len() && s[pos + 6] == '\\' && s[pos + 7] == 'u' && is_hex_digit(s[pos + 8])
        && is_hex_digit(s[pos + 9]) && is_hex_digit(s[pos + 10]) && is_hex_digit(s[pos + 11])
        && hex_val(s[pos + 8]) * 4096 + hex_val(s[pos + 9]) * 256 + hex_val(s[pos + 10]) * 16
        + hex_val(s[pos + 11]) == low_unit(c as nat)
}

/// Parses a string body up to and including the closing quote, appending
/// the characters read to `out`; returns the position after the quote.
#[verifier::loop_isolation(false)]
fn parse_str_rest(s: &Vec<char>, pos: usize, out: &mut Vec<char>) -> (r: Option<usize>)
    requires
        pos <= s@.len(),
    ensures
        r matches Some(np) ==> pos < np <= s@.len(),
        forall|cs: Seq<char>, rest: Seq<char>| #[trigger]
            str_hyp(s@, pos as int, cs, rest) ==> (r matches Some(np) && final(out)@ == old(out)@
                + cs && np == pos + ser_str(cs).len() + 1),
    decreases s@.len() - pos, 1int,
{
    if pos >= s.len() {
        proof {
            assert forall|cs: Seq<char>, rest: Seq<char>| #[trigger]
                str_hyp(s@, pos as int, cs, rest) implies false by {
                assert(s@.subrange(pos as int, s@.len() as int).len() == 0);
                assert((ser_str(cs) + seq!['"'] + rest).len() >= 1);
            }
        }
        return None;
    }
    let c0 = s[pos];
    if c0 == '"' {
        proof {
            assert forall|cs: Seq<char>, rest: Seq<char>| #[trigger]
                str_hyp(s@, pos as int, cs, rest) implies (out@ == out@ + cs && pos + 1 == pos
                + ser_str(cs).len() + 1) by {
                if cs.len() > 0 {
                    lemma_esc_char(cs[0]);
                    lemma_hyp_esc_index(s@, pos as int, cs, rest, 0);
                }
                assert(cs.len() == 0);
                assert(ser_str(cs).len() == 0);
                assert(out@ =~= out@ + cs);
            }
        }
        return Some(pos + 1);
    }
    // Every remaining case needs a nonempty body whose first escape begins
    // with `c0`.
    proof {
        assert forall|cs: Seq<char>, rest: Seq<char>|
            str_hyp(s@, pos as int, cs, rest) implies cs.len() > 0 && esc_char(cs[0])[0] == c0 by {
            if cs.len() == 0 {
                assert(s@.subrange(pos as int, s@.len() as int)[0] == '"');
            }
            lemma_esc_char(cs[0]);
            lemma_hyp_esc_index(s@, pos as int, cs, rest, 0);
        }
    }
    if c0 != '\\' {
        // A raw character stands for itself.
        out.push(c0);
        let ghost mid = out@;
        let r2 = parse_str_rest(s, pos + 1, out);
        proof {
            assert forall|cs: Seq<char>, rest: Seq<char>| #[trigger]
                str_hyp(s@, pos as int, cs, rest) implies (r2 matches Some(np) && out@ == old(out)@
                + cs && np == pos + ser_str(cs).len() + 1) by {
                lemma_esc_char(cs[0]);
                assert(esc_char(cs[0]) == seq![cs[0]]);
                assert(cs[0] == c0);
                lemma_hyp_esc_step(s@, pos as int, cs, rest);
                let cs1 = cs.subrange(1, cs.len() as int);
                assert(str_hyp(s@, pos + 1, cs1, rest));
                assert(out@ == mid + cs1);
                assert(mid == old(out)@ + seq![c0]);
                assert(out@ =~= old(out)@ + cs);
            }
        }
        return r2;
    }
    // An escape sequence.
    if pos + 1 >= s.len() {
        proof {
            assert forall|cs: Seq<char>, rest: Seq<char>| #[trigger]
                str_hyp(s@, pos as int, cs, rest) implies false by {
                lemma_esc_char(cs[0]);
                lemma_hyp_esc_index(s@, pos as int, cs, rest, 0);
                assert(esc_char(cs[0]).len() >= 2);
            }
        }
        return None;
    }
    let c1 = s[pos + 1];
    proof {
        assert forall|cs: Seq<char>, rest: Seq<char>|
            str_hyp(s@, pos as int, cs, rest) implies esc_char(cs[0]).len() >= 2 && esc_char(
            cs[0],
        )[1] == c1 by {
            lemma_esc_char(cs[0]);
            lemma_hyp_esc_index(s@, pos as int, cs, rest, 1);
        }
    }
    if c1 == '"' || c1 == '\\' {
        out.push(c1);
        let ghost mid = out@;
        let r2 = parse_str_rest(s, pos + 2, out);
        proof {
            assert forall|cs: Seq<char>, rest: Seq<char>| #[trigger]
                str_hyp(s@, pos as int, cs, rest) implies (r2 matches Some(np) && out@ == old(out)@
                + cs && np == pos + ser_str(cs).len() + 1) by {
                lemma_esc_char(cs[0]);
                assert(cs[0] == c1);
                assert(esc_char(cs[0]).len() == 2);
                lemma_hyp_esc_step(s@, pos as int, cs, rest);
                let cs1 = cs.subrange(1, cs.len() as int);
                assert(str_hyp(s@, pos + 2, cs1, rest));
                assert(out@ == mid + cs1);
                assert(mid == old(out)@ + seq![c1]);
                assert(out@ =~= old(out)@ + cs);
            }
        }
        return r2;
    }
    if c1 != 'u' {
        proof {
            assert forall|cs: Seq<char>, rest: Seq<char>| #[trigger]
                str_hyp(s@, pos as int, cs, rest) implies false by {
                lemma_esc_char(cs[0]);
            }
        }
        return None;
    }
    // A `\u` escape: under the hypothesis the next four characters are the
    // hex digits of the character's first UTF-16 code unit.
    proof {
        assert forall|cs: Seq<char>, rest: Seq<char>|
            str_hyp(s@, pos as int, cs, rest) implies first_unit_facts(s@, pos as int, cs[0]) by {
            lemma_esc_char(cs[0]);
            let c = cs[0];
            let m: nat = if (c as nat) < 0x10000 { c as nat } else { high_unit(c as nat) };
            if (c as nat) >= 0x10000 {
                lemma_units(c as nat);
            }
            lemma_hex4_roundtrip(m);
            lemma_hyp_esc_index(s@, pos as int, cs, rest, 2);
            lemma_hyp_esc_index(s@, pos as int, cs, rest, 3);
            lemma_hyp_esc_index(s@, pos as int, cs, rest, 4);
            lemma_hyp_esc_index(s@, pos as int, cs, rest, 5);
            assert(esc_char(c)[2] == hex4(m)[0]);
            assert(esc_char(c)[3] == hex4(m)[1]);
            assert(esc_char(c)[4] == hex4(m)[2]);
            assert(esc_char(c)[5] == hex4(m)[3]);
        }
    }
    let hi = match parse_hex4(s, pos + 2) {
        Some(h) => h,
        None => {
            proof {
                assert forall|cs: Seq<char>, rest: Seq<char>| #[trigger]
                    str_hyp(s@, pos as int, cs, rest) implies false by {
                    assert(first_unit_facts(s@, pos as int, cs[0]));
                }
            }
            return None;
        },
    };
    parse_str_u_escape(s, pos, hi, out)
}

/// Finishes a `\u` escape whose first four digits decoded to `hi`, then
/// parses the remainder of the string body.
#[verifier::loop_isolation(false)]
fn parse_str_u_escape(s: &Vec<char>, pos: usize, hi: u32, out: &mut Vec<char>) -> (r: Option<
    usize,
>)
    requires
        pos + 6 <= s@.len(),
        s@[pos as int] == '\\',
        s@[pos + 1] == 'u',
        forall|cs: Seq<char>, rest: Seq<char>| #[trigger]
            str_hyp(s@, pos as int, cs, rest) ==> (cs.len() > 0 && esc_char(cs[0])[0] == '\\'
                && esc_char(cs[0])[1] == 'u' && first_unit_facts(s@, pos as int, cs[0])),
        forall|cs: Seq<char>, rest: Seq<char>| #[trigger]
            str_hyp(s@, pos as int, cs, rest) ==> hi as nat == (if (cs[0] as nat) < 0x10000 {
                cs[0] as nat
            } else {
                high_unit(cs[0] as nat)
            }),
    ensures
        r matches Some(np) ==> pos < np <= s@.len(),
        forall|cs: Seq<char>, rest: Seq<char>| #[trigger]
            str_hyp(s@, pos as int, cs, rest) ==> (r matches Some(np) && final(out)@ == old(out)@
                + cs && np == pos + ser_str(cs).len() + 1),
    decreases s@.len() - pos, 0int,
{
    if 0xDC00 <= hi && hi < 0xE000 {
        // A lone low surrogate never appears in canonical text.
        proof {
            assert forall|cs: Seq<char>, rest: Seq<char>| #[trigger]
                str_hyp(s@, pos as int, cs, rest) implies false by {
                lemma_esc_char(cs[0]);
                if (cs[0] as nat) >= 0x10000 {
                    lemma_units(cs[0] as nat);
                }
            }
        }
        return None;
    }
    if !(0xD800 <= hi && hi < 0xDC00) {
        // A single code unit: a basic-plane character.
        proof {
            assert forall|cs: Seq<char>, rest: Seq<char>|
                str_hyp(s@, pos as int, cs, rest) implies (cs[0] as nat) < 0x10000 && (cs[0] as nat)
                == hi as nat && esc_char(cs[0]).len() == 6 by {
                lemma_esc_char(cs[0]);
                if (cs[0] as nat) >= 0x10000 {
                    lemma_units(cs[0] as nat);
                }
            }
        }
        let decoded = match char_from_u32(hi) {
            Some(c) => c,
            None => {
                return None;
            },
        };
        out.push(decoded);
        let ghost mid = out@;
        proof {
            assert(s@.len() == vstd::std_specs::vec::spec_vec_len(s));
        }
        let r2 = parse_str_rest(s, pos + 6, out);
        proof {
            assert forall|cs: Seq<char>, rest: Seq<char>| #[trigger]
                str_hyp(s@, pos as int, cs, rest) implies (r2 matches Some(np) && out@ == old(out)@
                + cs && np == pos + ser_str(cs).len() + 1) by {
                lemma_esc_char(cs[0]);
                assert((cs[0] as nat) == hi as nat);
                assert(cs[0] as u32 == hi);
                vstd::utf8::char_u32_cast(decoded, hi);
                vstd::utf8::char_u32_cast(cs[0], hi);
                assert(decoded == cs[0]);
                lemma_hyp_esc_step(s@, pos as int, cs, rest);
                let cs1 = cs.subrange(1, cs.len() as int);
                assert(str_hyp(s@, pos + 6, cs1, rest));
                assert(out@ == mid + cs1);
                assert(mid == old(out)@ + seq![decoded]);
                assert(out@ =~= old(out)@ + cs);
            }
        }
        return r2;
    }
    // A high surrogate: a supplementary character; its escape carries a
    // second `\u` group.
    proof {
        assert forall|cs: Seq<char>, rest: Seq<char>|
            str_hyp(s@, pos as int, cs, rest) implies (cs[0] as nat) >= 0x10000 && esc_char(
            cs[0],
        ).len() == 12 && second_unit_facts(s@, pos as int, cs[0]) by {
            lemma_esc_char(cs[0]);
            let c = cs[0];
            if (c as nat) >= 0x10000 {
                lemma_units(c as nat);
                lemma_hex4_roundtrip(low_unit(c as nat));
                lemma_hyp_esc_index(s@, pos as int, cs, rest, 6);
                lemma_hyp_esc_index(s@, pos as int, cs, rest, 7);
                lemma_hyp_esc_index(s@, pos as int, cs, rest, 8);
                lemma_hyp_esc_index(s@, pos as int, cs, rest, 9);
                lemma_hyp_esc_index(s@, pos as int, cs, rest, 10);
                lemma_hyp_esc_index(s@, pos as int, cs, rest, 11);
                assert(esc_char(c)[6] == '\\');
                assert(esc_char(c)[7] == 'u');
                assert(esc_char(c)[8] == hex4(low_unit(c as nat))[0]);
                assert(esc_char(c)[9] == hex4(low_unit(c as nat))[1]);
                assert(esc_char(c)[10] == hex4(low_unit(c as nat))[2]);
                assert(esc_char(c)[11] == hex4(low_unit(c as nat))[3]);
            }
        }
    }
    if s.len() - pos < 8 {
        return None;
    }
    if !(s[pos + 6] == '\\' && s[pos + 7] == 'u') {
        return None;
    }
    let lo = match parse_hex4(s, pos + 8) {
        Some(l) => l,
        None => {
            return None;
        },
    };
    if !(0xDC00 <= lo && lo < 0xE000) {
        proof {
            assert forall|cs: Seq<char>, rest: Seq<char>| #[trigger]
                str_hyp(s@, pos as int, cs, rest) implies false by {
                lemma_units(cs[0] as nat);
            }
        }
        return None;
    }
    let code = 0x10000 + (hi - 0xD800) * 0x400 + (lo - 0xDC00);
    let decoded = match char_from_u32(code) {
        Some(c) => c,
        None => {
            return None;
        },
    };
    out.push(decoded);
    let ghost mid = out@;
    let r2 = parse_str_rest(s, pos + 12, out);
    proof {
        assert forall|cs: Seq<char>, rest: Seq<char>| #[trigger]
            str_hyp(s@, pos as int, cs, rest) implies (r2 matches Some(np) && out@ == old(out)@
            + cs && np == pos + ser_str(cs).len() + 1) by {
            lemma_esc_char(cs[0]);
            let c = cs[0];
            lemma_units(c as nat);
            assert(hi as nat == high_unit(c as nat));
            assert(lo as nat == low_unit(c as nat));
            assert(code as nat == 0x10000 + (high_unit(c as nat) - 0xD800) * 0x400 + (low_unit(
                c as nat,
            ) - 0xDC00));
            assert(code as nat == c as nat);
            assert(c as u32 == code);
            vstd::utf8::char_u32_cast(decoded, code);
            vstd::utf8::char_u32_cast(c, code);
            assert(decoded == c);
            lemma_hyp_esc_step(s@, pos as int, cs, rest);
            let cs1 = cs.subrange(1, cs.len() as int);
            assert(str_hyp(s@, pos + 12, cs1, rest));
            assert(out@ == mid + cs1);
            assert(mid == old(out)@ + seq![decoded]);
            assert(out@ =~= old(out)@ + cs);
        }
    }
    r2
}

// ===== Parsing of whole values =====

/// The text from `pos` on is the canonical form of `v` followed by a
/// remainder that does not begin with a digit.
pub open spec fn val_hyp(s: Seq<char>, pos: int, v: ValueSpec, rest: Seq<char>) -> bool {
    s.subrange(pos, s.len() as int) == ser(v) + rest && (rest.len() == 0 || !is_digit(rest[0]))
}

/// The text from `pos` on is the canonical form of one or more array
/// elements, the closing bracket, and a remainder.
pub open spec fn arr_hyp(s: Seq<char>, pos: int, items: Seq<ValueSpec>, rest: Seq<char>) -> bool {
    s.subrange(pos, s.len() as int) == ser_arr(items) + seq![']'] + rest && items.len() >= 1 && (
    rest.len() == 0 || !is_digit(rest[0])) && (forall|k: int|
        0 <= k < items.len() ==> wf_value(#[trigger] items[k]))
}

/// The text from `pos` on is the canonical form of one or more object
/// entries, the closing brace, and a remainder.
pub open spec fn obj_hyp(
    s: Seq<char>,
    pos: int,
    entries: Seq<(Seq<char>, ValueSpec)>,
    rest: Seq<char>,
) -> bool {
    s.subrange(pos, s.len() as int) == ser_obj(entries) + seq!['}'] + rest && entries.len() >= 1
        && (rest.len() == 0 || !is_digit(rest[0])) && (forall|k: int|
        0 <= k < entries.len() ==> wf_value(#[trigger] (entries[k]).1))
}

/// The text from `pos` on is the canonical decimal form of `i` followed by
/// a remainder that does not begin with a digit.
pub open spec fn num_hyp(s: Seq<char>, pos: int, i: int, rest: Seq<char>) -> bool {
    s.subrange(pos, s.len() as int) == int_chars(i) + rest && (rest.len() == 0 || !is_digit(
        rest[0],
    ))
}

/// What follows one array element: the separator or closing bracket, the
/// remaining elements, and the remainder.
pub open spec fn arr_tail_rest(items: Seq<ValueSpec>, rest: Seq<char>) -> Seq<char> {
    if items.len() == 1 {
        seq![']'] + rest
    } else {
        seq![','] + ser_arr(items.subrange(1, items.len() as int)) + seq![']'] + rest
    }
}

/// What follows one object entry.
pub open spec fn obj_tail_rest(entries: Seq<(Seq<char>, ValueSpec)>, rest: Seq<char>) -> Seq<
    char,
> {
    if entries.len() == 1 {
        seq!['}'] + rest
    } else {
        seq![','] + ser_obj(entries.subrange(1, entries.len() as int)) + seq!['}'] + rest
    }
}

/// Splitting a known prefix off a suffix of the text.
proof fn lemma_prefix_extract(s: Seq<char>, pos: int, a: Seq<char>, b: Seq<char>)
    requires
        0 <= pos <= s.len(),
        s.subrange(pos, s.len() as int) == a + b,
    ensures
        pos + a.len() + b.len() == s.len(),
        s.subrange(pos, pos + a.len()) =~= a,
        s.subrange(pos + a.len(), s.len() as int) =~= b,
        forall|j: int| 0 <= j < a.len() ==> s[pos + j] == a[j],
        forall|j: int| 0 <= j < b.len() ==> s[pos + a.len() + j] == b[j],
{
    let suffix = s.subrange(pos, s.len() as int);
    assert(suffix.len() == a.len() + b.len());
    assert forall|j: int| 0 <= j < a.len() implies s[pos + j] == a[j] by {
        assert(suffix[j] == (a + b)[j]);
        assert(suffix[j] == s[pos + j]);
    }
    assert forall|j: int| 0 <= j < b.len() implies s[pos + a.len() + j] == b[j] by {
        assert(suffix[a.len() + j] == (a + b)[a.len() + j]);
        assert(suffix[a.len() + j] == s[pos + a.len() + j]);
    }
    assert(s.subrange(pos, pos + a.len()) =~= a);
    assert(s.subrange(pos + a.len(), s.len() as int) =~= b);
}

/// The first character of a canonical form names the value's constructor.
pub proof fn lemma_ser_first(v: ValueSpec)
    ensures
        ser(v).len() >= 1,
        (v == ValueSpec::Null) <==> ser(v)[0] == 'n',
        (v == ValueSpec::Bool(true)) <==> ser(v)[0] == 't',
        (v == ValueSpec::Bool(false)) <==> ser(v)[0] == 'f',
        (v is Int) <==> (ser(v)[0] == '-' || is_digit(ser(v)[0])),
        (v is Str) <==> ser(v)[0] == '"',
        (v is Arr) <==> ser(v)[0] == '[',
        (v is Obj) <==> ser(v)[0] == '{',
{
    match v {
        ValueSpec::Int(i) => {
            if i < 0 {
                lemma_digits_of((-i) as nat);
                assert(ser(v)[0] == '-');
            } else {
                lemma_digits_of(i as nat);
                assert(ser(v) == digits_of(i as nat));
                assert(is_digit(ser(v)[0]));
            }
        },
        _ => {},
    }
}

/// Extra facts: a canonical form never begins with a delimiter.
pub proof fn lemma_ser_first_not_delim(v: ValueSpec)
    ensures
        ser(v).len() >= 1,
        ser(v)[0] != ']',
        ser(v)[0] != '}',
        ser(v)[0] != ',',
        ser(v)[0] != ':',
{
    lemma_ser_first(v);
}

/// Head decomposition of a nonempty array's canonical form.
proof fn lemma_ser_arr_head(items: Seq<ValueSpec>)
    requires
        items.len() >= 1,
    ensures
        items.len() == 1 ==> ser_arr(items) == ser(items[0]),
        items.len() > 1 ==> ser_arr(items) == ser(items[0]) + seq![','] + ser_arr(
            items.subrange(1, items.len() as int),
        ),
        ser_arr(items).len() >= 1,
        ser_arr(items)[0] == ser(items[0])[0],
{
    lemma_ser_first(items[0]);
}

/// Head decomposition of a nonempty object's canonical form.
proof fn lemma_ser_obj_head(entries: Seq<(Seq<char>, ValueSpec)>)
    requires
        entries.len() >= 1,
    ensures
        entries.len() == 1 ==> ser_obj(entries) == ser_entry(entries[0]),
        entries.len() > 1 ==> ser_obj(entries) == ser_entry(entries[0]) + seq![','] + ser_obj(
            entries.subrange(1, entries.len() as int),
        ),
        ser_obj(entries).len() >= 1,
        ser_obj(entries)[0] == '"',
        ser_entry(entries[0])[0] == '"',
{
}

/// Under the number hypothesis, the digit run ends exactly where the
/// canonical digits end.
proof fn num_hyp_digits(s: Seq<char>, pos: int, i: int, rest: Seq<char>)
    requires
        0 <= pos <= s.len(),
        num_hyp(s, pos, i, rest),
    ensures
        i < 0 ==> s[pos] == '-',
        i >= 0 ==> is_digit(s[pos]),
        ({
            let start: int = if i < 0 { pos + 1 } else { pos };
            let mag: nat = if i < 0 { (-i) as nat } else { i as nat };
            let k = digits_of(mag).len();
            &&& start + k <= s.len()
            &&& s.subrange(start, start + k) =~= digits_of(mag)
            &&& (forall|j: int| start <= j < start + k ==> is_digit(#[trigger] s[j]))
            &&& (start + k == s.len() || !is_digit(s[start + k]))
            &&& pos + int_chars(i).len() == start + k
        }),
{
    let start: int = if i < 0 { pos + 1 } else { pos };
    let mag: nat = if i < 0 { (-i) as nat } else { i as nat };
    let k = digits_of(mag).len();
    lemma_digits_of(mag);
    if i < 0 {
        assert(int_chars(i) == seq!['-'] + digits_of(mag));
        assert(int_chars(i) + rest =~= seq!['-'] + (digits_of(mag) + rest));
        lemma_prefix_extract(s, pos, seq!['-'], digits_of(mag) + rest);
        assert(s[pos + 0] == seq!['-'][0]);
        assert(s[pos] == '-');
        assert(s.subrange(pos + 1, s.len() as int) =~= digits_of(mag) + rest);
        lemma_prefix_extract(s, pos + 1, digits_of(mag), rest);
    } else {
        assert(int_chars(i) == digits_of(mag));
        lemma_prefix_extract(s, pos, digits_of(mag), rest);
    }
    assert(s.subrange(start, start + k) =~= digits_of(mag));
    assert forall|j: int| start <= j < start + k implies is_digit(#[trigger] s[j]) by {
        assert(s[j] == digits_of(mag)[j - start]);
    }
    if start + k < s.len() {
        assert(rest.len() > 0);
        assert(s[start + k] == rest[0]);
    }
}

/// Reads the digits of an integer and the optional leading minus sign.
fn parse_number(s: &Vec<char>, pos: usize) -> (r: Option<(i64, usize)>)
    requires
        pos < s@.len(),
    ensures
        r matches Some(p) ==> pos < p.1 <= s@.len(),
        forall|i: int, rest: Seq<char>|
            i64::MIN <= i <= i64::MAX && #[trigger] num_hyp(s@, pos as int, i, rest) ==> (
            r matches Some(p) && p.0 == i && p.1 == pos + int_chars(i).len()),
{
    proof {
        assert(s@.len() == vstd::std_specs::vec::spec_vec_len(s));
    }
    let neg = s[pos] == '-';
    let start = if neg {
        pos + 1
    } else {
        pos
    };
    let mut e: usize = start;
    loop
        invariant_except_break
            start <= e <= s@.len(),
            forall|j: int| start <= j < e ==> is_digit(#[trigger] s@[j]),
        ensures
            start <= e <= s@.len(),
            forall|j: int| start <= j < e ==> is_digit(#[trigger] s@[j]),
            e == s@.len() || !is_digit(s@[e as int]),
        decreases s@.len() - e,
    {
        if e >= s.len() {
            break ;
        }
        let c = s[e];
        if !(c >= '0' && c <= '9') {
            break ;
        }
        e = e + 1;
    }
    if e == start {
        proof {
            assert forall|i: int, rest: Seq<char>|
                i64::MIN <= i <= i64::MAX && #[trigger] num_hyp(s@, pos as int, i, rest) implies false by {
                num_hyp_digits(s@, pos as int, i, rest);
            }
        }
        return None;
    }
    let m = match crate::text::parse_u64(s.as_slice(), start, e) {
        Some(m) => m,
        None => {
            proof {
                assert forall|i: int, rest: Seq<char>|
                    i64::MIN <= i <= i64::MAX && #[trigger] num_hyp(s@, pos as int, i, rest) implies false by {
                    num_hyp_digits(s@, pos as int, i, rest);
                    let mag: nat = if i < 0 { (-i) as nat } else { i as nat };
                    lemma_digits_of(mag);
                    assert(s@.subrange(start as int, e as int) == digits_of(mag));
                    assert(val_of(s@.subrange(start as int, e as int)) == mag);
                }
            }
            return None;
        },
    };
    proof {
        assert forall|i: int, rest: Seq<char>|
            i64::MIN <= i <= i64::MAX && #[trigger] num_hyp(s@, pos as int, i, rest) implies m
            as nat == (if i < 0 { (-i) as nat } else { i as nat }) && e == pos + int_chars(i).len()
            && (i < 0 <==> neg) by {
            num_hyp_digits(s@, pos as int, i, rest);
            let mag: nat = if i < 0 { (-i) as nat } else { i as nat };
            lemma_digits_of(mag);
            assert(s@.subrange(start as int, e as int) == digits_of(mag));
            assert(val_of(s@.subrange(start as int, e as int)) == mag);
        }
    }
    if neg {
        if m > 9223372036854775808u64 {
            return None;
        }
        let val: i64 = if m == 9223372036854775808u64 {
            i64::MIN
        } else {
            -(m as i64)
        };
        Some((val, e))
    } else {
        if m > 9223372036854775807u64 {
            return None;
        }
        Some((m as i64, e))
    }
}

/// Appending one parsed element extends the array view by its model.
proof fn lemma_arr_view_push(s: Seq<Value>, v: Value)
    ensures
        arr_view(s.push(v)) =~= arr_view(s) + seq![v.view_spec()],
{
    lemma_arr_view(s);
    lemma_arr_view(s.push(v));
}

/// Appending one parsed entry extends the object view by its model.
proof fn lemma_obj_view_push(s: Seq<Entry>, e: Entry)
    ensures
        obj_view(s.push(e)) =~= obj_view(s) + seq![(e.key@, e.value.view_spec())],
{
    lemma_obj_view(s);
    lemma_obj_view(s.push(e));
}

/// The string branch of the value parser.
#[verifier::loop_isolation(false)]
#[verifier::rlimit(100)]
#[verifier::spinoff_prover]
fn parse_str_value(s: &Vec<char>, pos: usize) -> (r: Option<(Value, usize)>)
    requires
        pos < s@.len(),
        s@[pos as int] == '"',
        forall|v: ValueSpec, rest: Seq<char>|
            wf_value(v) && #[trigger] val_hyp(s@, pos as int, v, rest) ==> ser(v).len() >= 1 && ser(
                v,
            )[0] == '"' && pos + ser(v).len() + rest.len() == s@.len(),
    ensures
        r matches Some(p) ==> pos < p.1 <= s@.len(),
        forall|v: ValueSpec, rest: Seq<char>|
            wf_value(v) && #[trigger] val_hyp(s@, pos as int, v, rest) ==> (r matches Some(p)
                && p.0.view_spec() == v && p.1 == pos + ser(v).len()),
    decreases s@.len() - pos, 1int,
{
    proof {
        assert forall|v: ValueSpec, rest: Seq<char>|
            wf_value(v) && #[trigger] val_hyp(s@, pos as int, v, rest) implies v is Str && str_hyp(
            s@,
            pos + 1,
            v->Str_0,
            rest,
        ) by {
            lemma_ser_first(v);
            let inner = v->Str_0;
            assert(ser(v) =~= seq!['"'] + (ser_str(inner) + seq!['"']));
            assert(ser(v) + rest =~= seq!['"'] + (ser_str(inner) + seq!['"'] + rest));
            lemma_prefix_extract(s@, pos as int, seq!['"'], ser_str(inner) + seq!['"'] + rest);
        }
    }
    proof {
        assert(s@.len() == vstd::std_specs::vec::spec_vec_len(s));
    }
    let mut cs: Vec<char> = Vec::new();
    let r2 = parse_str_rest(s, pos + 1, &mut cs);
    match r2 {
        Some(np) => {
            let text = crate::text::chars_to_string(&cs);
            proof {
                assert forall|v: ValueSpec, rest: Seq<char>|
                    wf_value(v) && #[trigger] val_hyp(s@, pos as int, v, rest) implies (Value::Str(
                    text,
                ).view_spec() == v && np == pos + ser(v).len()) by {
                    assert(str_hyp(s@, pos + 1, v->Str_0, rest));
                    assert(cs@ == Seq::<char>::empty() + v->Str_0);
                    assert(cs@ =~= v->Str_0);
                    assert(ser(v).len() == 2 + ser_str(v->Str_0).len());
                }
            }
            Some((Value::Str(text), np))
        },
        None => {
            proof {
                assert forall|v: ValueSpec, rest: Seq<char>|
                    wf_value(v) && #[trigger] val_hyp(s@, pos as int, v, rest) implies false by {
                    assert(str_hyp(s@, pos + 1, v->Str_0, rest));
                }
            }
            None
        },
    }
}

/// The array branch of the value parser.
#[verifier::loop_isolation(false)]
#[verifier::rlimit(100)]
#[verifier::spinoff_prover]
fn parse_arr_value(s: &Vec<char>, pos: usize) -> (r: Option<(Value, usize)>)
    requires
        pos < s@.len(),
        s@[pos as int] == '[',
        forall|v: ValueSpec, rest: Seq<char>|
            wf_value(v) && #[trigger] val_hyp(s@, pos as int, v, rest) ==> ser(v).len() >= 1 && ser(
                v,
            )[0] == '[' && pos + ser(v).len() + rest.len() == s@.len(),
    ensures
        r matches Some(p) ==> pos < p.1 <= s@.len(),
        forall|v: ValueSpec, rest: Seq<char>|
            wf_value(v) && #[trigger] val_hyp(s@, pos as int, v, rest) ==> (r matches Some(p)
                && p.0.view_spec() == v && p.1 == pos + ser(v).len()),
    decreases s@.len() - pos, 1int,
{
    proof {
        assert forall|v: ValueSpec, rest: Seq<char>|
            wf_value(v) && #[trigger] val_hyp(s@, pos as int, v, rest) implies v is Arr && (
        v->Arr_0.len() == 0 ==> pos + 2 <= s@.len() && s@[pos + 1] == ']') && (v->Arr_0.len() > 0
            ==> arr_hyp(s@, pos + 1, v->Arr_0, rest) && pos + 1 < s@.len() && s@[pos + 1]
            != ']') by {
            lemma_ser_first(v);
            let items = v->Arr_0;
            assert(ser(v) =~= seq!['['] + (ser_arr(items) + seq![']']));
            assert(ser(v) + rest =~= seq!['['] + (ser_arr(items) + seq![']'] + rest));
            lemma_prefix_extract(s@, pos as int, seq!['['], ser_arr(items) + seq![']'] + rest);
            if items.len() == 0 {
                assert(s@.subrange(pos + 1, s@.len() as int) =~= seq![']'] + rest);
                assert(s@.subrange(pos + 1, s@.len() as int)[0] == s@[pos + 1]);
                assert(s@[pos + 1] == ']');
            } else {
                lemma_ser_arr_head(items);
                lemma_ser_first_not_delim(items[0]);
                assert(s@.subrange(pos + 1, s@.len() as int) =~= ser_arr(items) + seq![']'] + rest);
                assert(ser_arr(items) + seq![']'] + rest =~= ser_arr(items) + (seq![']'] + rest));
                lemma_prefix_extract(s@, pos + 1, ser_arr(items), seq![']'] + rest);
                assert(s@[pos + 1 + 0] == ser_arr(items)[0]);
            }
        }
    }
    if s.len() - pos >= 2 {
        if s[pos + 1] == ']' {
            let empty_items: Vec<Value> = Vec::new();
            proof {
                assert forall|v: ValueSpec, rest: Seq<char>|
                    wf_value(v) && #[trigger] val_hyp(s@, pos as int, v, rest) implies (Value::Arr(
                    empty_items,
                ).view_spec() == v && pos + 2 == pos + ser(v).len()) by {
                    assert(v->Arr_0.len() == 0);
                    assert(arr_view(empty_items@) =~= v->Arr_0);
                    assert(ser_arr(v->Arr_0).len() == 0);
                }
            }
            return Some((Value::Arr(empty_items), pos + 2));
        }
        let mut elems: Vec<Value> = Vec::new();
        let r2 = parse_arr_items(s, pos + 1, &mut elems);
        match r2 {
            Some(np) => {
                proof {
                    assert forall|v: ValueSpec, rest: Seq<char>|
                        wf_value(v) && #[trigger] val_hyp(s@, pos as int, v, rest) implies (Value::Arr(
                        elems,
                    ).view_spec() == v && np == pos + ser(v).len()) by {
                        assert(arr_hyp(s@, pos + 1, v->Arr_0, rest));
                        assert(arr_view(elems@) =~= v->Arr_0);
                    }
                }
                return Some((Value::Arr(elems), np));
            },
            None => {
                proof {
                    assert forall|v: ValueSpec, rest: Seq<char>|
                        wf_value(v) && #[trigger] val_hyp(s@, pos as int, v, rest) implies false by {
                        assert(arr_hyp(s@, pos + 1, v->Arr_0, rest));
                    }
                }
                return None;
            },
        }
    }
    proof {
        assert forall|v: ValueSpec, rest: Seq<char>|
            wf_value(v) && #[trigger] val_hyp(s@, pos as int, v, rest) implies false by {
            if v->Arr_0.len() > 0 {
                assert(arr_hyp(s@, pos + 1, v->Arr_0, rest));
            }
        }
    }
    None
}

/// The object branch of the value parser.
#[verifier::loop_isolation(false)]
#[verifier::rlimit(100)]
#[verifier::spinoff_prover]
fn parse_obj_value(s: &Vec<char>, pos: usize) -> (r: Option<(Value, usize)>)
    requires
        pos < s@.len(),
        s@[pos as int] == '{',
        forall|v: ValueSpec, rest: Seq<char>|
            wf_value(v) && #[trigger] val_hyp(s@, pos as int, v, rest) ==> ser(v).len() >= 1 && ser(
                v,
            )[0] == '{' && pos + ser(v).len() + rest.len() == s@.len(),
    ensures
        r matches Some(p) ==> pos < p.1 <= s@.len(),
        forall|v: ValueSpec, rest: Seq<char>|
            wf_value(v) && #[trigger] val_hyp(s@, pos as int, v, rest) ==> (r matches Some(p)
                && p.0.view_spec() == v && p.1 == pos + ser(v).len()),
    decreases s@.len() - pos, 1int,
{
    proof {
        assert forall|v: ValueSpec, rest: Seq<char>|
            wf_value(v) && #[trigger] val_hyp(s@, pos as int, v, rest) implies v is Obj && (
        v->Obj_0.len() == 0 ==> pos + 2 <= s@.len() && s@[pos + 1] == '}') && (v->Obj_0.len() > 0
            ==> obj_hyp(s@, pos + 1, v->Obj_0, rest) && pos + 1 < s@.len() && s@[pos + 1]
            != '}') by {
            lemma_ser_first(v);
            let entries = v->Obj_0;
            assert(ser(v) =~= seq!['{'] + (ser_obj(entries) + seq!['}']));
            assert(ser(v) + rest =~= seq!['{'] + (ser_obj(entries) + seq!['}'] + rest));
            lemma_prefix_extract(s@, pos as int, seq!['{'], ser_obj(entries) + seq!['}'] + rest);
            if entries.len() == 0 {
                assert(s@.subrange(pos + 1, s@.len() as int) =~= seq!['}'] + rest);
                assert(s@.subrange(pos + 1, s@.len() as int)[0] == s@[pos + 1]);
                assert(s@[pos + 1] == '}');
            } else {
                lemma_ser_obj_head(entries);
                assert(s@.subrange(pos + 1, s@.len() as int) =~= ser_obj(entries) + seq!['}']
                    + rest);
                assert(ser_obj(entries) + seq!['}'] + rest =~= ser_obj(entries) + (seq!['}']
                    + rest));
                lemma_prefix_extract(s@, pos + 1, ser_obj(entries), seq!['}'] + rest);
                assert(s@[pos + 1 + 0] == ser_obj(entries)[0]);
            }
        }
    }
    if s.len() - pos >= 2 {
        if s[pos + 1] == '}' {
            let empty_entries: Vec<Entry> = Vec::new();
            proof {
                assert forall|v: ValueSpec, rest: Seq<char>|
                    wf_value(v) && #[trigger] val_hyp(s@, pos as int, v, rest) implies (Value::Obj(
                    empty_entries,
                ).view_spec() == v && pos + 2 == pos + ser(v).len()) by {
                    assert(v->Obj_0.len() == 0);
                    assert(obj_view(empty_entries@) =~= v->Obj_0);
                    assert(ser_obj(v->Obj_0).len() == 0);
                }
            }
            return Some((Value::Obj(empty_entries), pos + 2));
        }
        let mut fields: Vec<Entry> = Vec::new();
        let r2 = parse_obj_entries(s, pos + 1, &mut fields);
        match r2 {
            Some(np) => {
                proof {
                    assert forall|v: ValueSpec, rest: Seq<char>|
                        wf_value(v) && #[trigger] val_hyp(s@, pos as int, v, rest) implies (Value::Obj(
                        fields,
                    ).view_spec() == v && np == pos + ser(v).len()) by {
                        assert(obj_hyp(s@, pos + 1, v->Obj_0, rest));
                        assert(obj_view(fields@) =~= v->Obj_0);
                    }
                }
                return Some((Value::Obj(fields), np));
            },
            None => {
                proof {
                    assert forall|v: ValueSpec, rest: Seq<char>|
                        wf_value(v) && #[trigger] val_hyp(s@, pos as int, v, rest) implies false by {
                        assert(obj_hyp(s@, pos + 1, v->Obj_0, rest));
                    }
                }
                return None;
            },
        }
    }
    proof {
        assert forall|v: ValueSpec, rest: Seq<char>|
            wf_value(v) && #[trigger] val_hyp(s@, pos as int, v, rest) implies false by {
            if v->Obj_0.len() > 0 {
                assert(obj_hyp(s@, pos + 1, v->Obj_0, rest));
            }
        }
    }
    None
}

/// Parses one canonical value starting at `pos`.
#[verifier::loop_isolation(false)]
#[verifier::rlimit(100)]
#[verifier::spinoff_prover]
pub fn parse_value(s: &Vec<char>, pos: usize) -> (r: Option<(Value, usize)>)
    requires
        pos <= s@.len(),
    ensures
        r matches Some(p) ==> pos < p.1 <= s@.len(),
        forall|v: ValueSpec, rest: Seq<char>|
            wf_value(v) && #[trigger] val_hyp(s@, pos as int, v, rest) ==> (r matches Some(p)
                && p.0.view_spec() == v && p.1 == pos + ser(v).len()),
    decreases s@.len() - pos, 2int,
{
    if pos >= s.len() {
        proof {
            assert forall|v: ValueSpec, rest: Seq<char>|
                wf_value(v) && #[trigger] val_hyp(s@, pos as int, v, rest) implies false by {
                lemma_ser_first(v);
                assert(s@.subrange(pos as int, s@.len() as int).len() == 0);
            }
        }
        return None;
    }
    let c0 = s[pos];
    proof {
        assert forall|v: ValueSpec, rest: Seq<char>|
            wf_value(v) && #[trigger] val_hyp(s@, pos as int, v, rest) implies ser(v).len() >= 1
            && ser(v)[0] == c0 && pos + ser(v).len() + rest.len() == s@.len() by {
            lemma_ser_first(v);
            lemma_prefix_extract(s@, pos as int, ser(v), rest);
            assert(s@[pos + 0] == ser(v)[0]);
        }
    }
    if c0 == 'n' {
        if s.len() - pos >= 4 {
            if s[pos + 1] == 'u' && s[pos + 2] == 'l' && s[pos + 3] == 'l' {
                proof {
                    assert forall|v: ValueSpec, rest: Seq<char>|
                        wf_value(v) && #[trigger] val_hyp(s@, pos as int, v, rest) implies (
                    Value::Null.view_spec() == v && pos + 4 == pos + ser(v).len()) by {
                        lemma_ser_first(v);
                        assert(v == ValueSpec::Null);
                    }
                }
                return Some((Value::Null, pos + 4));
            }
        }
        proof {
            assert forall|v: ValueSpec, rest: Seq<char>|
                wf_value(v) && #[trigger] val_hyp(s@, pos as int, v, rest) implies false by {
                lemma_ser_first(v);
                assert(v == ValueSpec::Null);
                lemma_prefix_extract(s@, pos as int, ser(v), rest);
                assert(s@[pos + 1] == ser(v)[1]);
                assert(s@[pos + 2] == ser(v)[2]);
                assert(s@[pos + 3] == ser(v)[3]);
            }
        }
        return None;
    }
    if c0 == 't' {
        if s.len() - pos >= 4 {
            if s[pos + 1] == 'r' && s[pos + 2] == 'u' && s[pos + 3] == 'e' {
                proof {
                    assert forall|v: ValueSpec, rest: Seq<char>|
                        wf_value(v) && #[trigger] val_hyp(s@, pos as int, v, rest) implies (
                    Value::Bool(true).view_spec() == v && pos + 4 == pos + ser(v).len()) by {
                        lemma_ser_first(v);
                        assert(v == ValueSpec::Bool(true));
                    }
                }
                return Some((Value::Bool(true), pos + 4));
            }
        }
        proof {
            assert forall|v: ValueSpec, rest: Seq<char>|
                wf_value(v) && #[trigger] val_hyp(s@, pos as int, v, rest) implies false by {
                lemma_ser_first(v);
                assert(v == ValueSpec::Bool(true));
                lemma_prefix_extract(s@, pos as int, ser(v), rest);
                assert(s@[pos + 1] == ser(v)[1]);
                assert(s@[pos + 2] == ser(v)[2]);
                assert(s@[pos + 3] == ser(v)[3]);
            }
        }
        return None;
    }
    if c0 == 'f' {
        if s.len() - pos >= 5 {
            if s[pos + 1] == 'a' && s[pos + 2] == 'l' && s[pos + 3] == 's' && s[pos + 4] == 'e' {
                proof {
                    assert forall|v: ValueSpec, rest: Seq<char>|
                        wf_value(v) && #[trigger] val_hyp(s@, pos as int, v, rest) implies (
                    Value::Bool(false).view_spec() == v && pos + 5 == pos + ser(v).len()) by {
                        lemma_ser_first(v);
                        assert(v == ValueSpec::Bool(false));
                    }
                }
                return Some((Value::Bool(false), pos + 5));
            }
        }
        proof {
            assert forall|v: ValueSpec, rest: Seq<char>|
                wf_value(v) && #[trigger] val_hyp(s@, pos as int, v, rest) implies false by {
                lemma_ser_first(v);
                assert(v == ValueSpec::Bool(false));
                lemma_prefix_extract(s@, pos as int, ser(v), rest);
                assert(s@[pos + 1] == ser(v)[1]);
                assert(s@[pos + 2] == ser(v)[2]);
                assert(s@[pos + 3] == ser(v)[3]);
                assert(s@[pos + 4] == ser(v)[4]);
            }
        }
        return None;
    }
    if c0 == '"' {
        return parse_str_value(s, pos);
    }
    if c0 == '-' || (c0 >= '0' && c0 <= '9') {
        proof {
            assert forall|v: ValueSpec, rest: Seq<char>|
                wf_value(v) && #[trigger] val_hyp(s@, pos as int, v, rest) implies v is Int
                && num_hyp(s@, pos as int, v->Int_0, rest) && i64::MIN <= v->Int_0 <= i64::MAX by {
                lemma_ser_first(v);
            }
        }
        match parse_number(s, pos) {
            Some(p) => {
                proof {
                    assert forall|v: ValueSpec, rest: Seq<char>|
                        wf_value(v) && #[trigger] val_hyp(s@, pos as int, v, rest) implies (
                    Value::Int(p.0).view_spec() == v && p.1 == pos + ser(v).len()) by {
                        assert(num_hyp(s@, pos as int, v->Int_0, rest));
                    }
                }
                return Some((Value::Int(p.0), p.1));
            },
            None => {
                proof {
                    assert forall|v: ValueSpec, rest: Seq<char>|
                        wf_value(v) && #[trigger] val_hyp(s@, pos as int, v, rest) implies false by {
                        assert(num_hyp(s@, pos as int, v->Int_0, rest));
                    }
                }
                return None;
            },
        }
    }
    if c0 == '[' {
        return parse_arr_value(s, pos);
    }
    if c0 == '{' {
        return parse_obj_value(s, pos);
    }
    proof {
        assert forall|v: ValueSpec, rest: Seq<char>|
            wf_value(v) && #[trigger] val_hyp(s@, pos as int, v, rest) implies false by {
            lemma_ser_first(v);
        }
    }
    None
}

/// Parses the elements of a nonempty array body up to and including the
/// closing bracket, appending the values read to `out`.
#[verifier::loop_isolation(false)]
#[verifier::rlimit(100)]
#[verifier::spinoff_prover]
fn parse_arr_items(s: &Vec<char>, pos: usize, out: &mut Vec<Value>) -> (r: Option<usize>)
    requires
        pos <= s@.len(),
    ensures
        r matches Some(np) ==> pos < np <= s@.len(),
        forall|items: Seq<ValueSpec>, rest: Seq<char>| #[trigger]
            arr_hyp(s@, pos as int, items, rest) ==> (r matches Some(np) && final(out)@.len()
                == old(out)@.len() + items.len() && arr_view(final(out)@) == arr_view(old(out)@)
                + items && np == pos + ser_arr(items).len() + 1),
    decreases s@.len() - pos, 3int,
{
    proof {
        assert forall|items: Seq<ValueSpec>, rest: Seq<char>| #[trigger]
            arr_hyp(s@, pos as int, items, rest) implies val_hyp(
            s@,
            pos as int,
            items[0],
            arr_tail_rest(items, rest),
        ) && wf_value(items[0]) by {
            lemma_ser_arr_head(items);
            let tail = arr_tail_rest(items, rest);
            if items.len() == 1 {
                assert(ser_arr(items) + seq![']'] + rest =~= ser(items[0]) + tail);
            } else {
                assert(ser_arr(items) + seq![']'] + rest =~= ser(items[0]) + tail);
            }
            assert(tail[0] == ',' || tail[0] == ']');
            assert(!is_digit(tail[0]));
        }
    }
    let r1 = parse_value(s, pos);
    let (val, np1) = match r1 {
        Some(p) => p,
        None => {
            proof {
                assert forall|items: Seq<ValueSpec>, rest: Seq<char>| #[trigger]
                    arr_hyp(s@, pos as int, items, rest) implies false by {
                    assert(val_hyp(s@, pos as int, items[0], arr_tail_rest(items, rest)));
                }
            }
            return None;
        },
    };
    out.push(val);
    let ghost mid = out@;
    proof {
        assert forall|items: Seq<ValueSpec>, rest: Seq<char>| #[trigger]
            arr_hyp(s@, pos as int, items, rest) implies np1 < s@.len() && s@[np1 as int]
            == arr_tail_rest(items, rest)[0] && val.view_spec() == items[0] && np1 == pos + ser(
            items[0],
        ).len() by {
            assert(val_hyp(s@, pos as int, items[0], arr_tail_rest(items, rest)));
            lemma_prefix_extract(s@, pos as int, ser(items[0]), arr_tail_rest(items, rest));
            assert(s@[pos + ser(items[0]).len() + 0] == arr_tail_rest(items, rest)[0]);
        }
    }
    if np1 >= s.len() {
        proof {
            assert forall|items: Seq<ValueSpec>, rest: Seq<char>| #[trigger]
                arr_hyp(s@, pos as int, items, rest) implies false by {}
        }
        return None;
    }
    let c = s[np1];
    if c == ']' {
        proof {
            assert forall|items: Seq<ValueSpec>, rest: Seq<char>| #[trigger]
                arr_hyp(s@, pos as int, items, rest) implies (out@.len() == old(out)@.len()
                + items.len() && arr_view(out@) == arr_view(old(out)@) + items && np1 + 1 == pos
                + ser_arr(items).len() + 1) by {
                lemma_ser_arr_head(items);
                if items.len() > 1 {
                    assert(arr_tail_rest(items, rest)[0] == ',');
                }
                assert(items.len() == 1);
                lemma_arr_view_push(old(out)@, val);
                assert(arr_view(out@) =~= arr_view(old(out)@) + items);
            }
        }
        return Some(np1 + 1);
    }
    if c == ',' {
        proof {
            assert forall|items: Seq<ValueSpec>, rest: Seq<char>| #[trigger]
                arr_hyp(s@, pos as int, items, rest) implies items.len() > 1 && arr_hyp(
                s@,
                np1 + 1,
                items.subrange(1, items.len() as int),
                rest,
            ) by {
                lemma_ser_arr_head(items);
                if items.len() == 1 {
                    assert(arr_tail_rest(items, rest)[0] == ']');
                }
                let items1 = items.subrange(1, items.len() as int);
                assert(val_hyp(s@, pos as int, items[0], arr_tail_rest(items, rest)));
                lemma_prefix_extract(s@, pos as int, ser(items[0]), arr_tail_rest(items, rest));
                assert(s@.subrange(np1 as int, s@.len() as int) =~= arr_tail_rest(items, rest));
                assert(arr_tail_rest(items, rest) =~= seq![','] + (ser_arr(items1) + seq![']']
                    + rest));
                lemma_prefix_extract(s@, np1 as int, seq![','], ser_arr(items1) + seq![']'] + rest);
                assert(s@.subrange(np1 + 1, s@.len() as int) =~= ser_arr(items1) + seq![']']
                    + rest);
                assert forall|k: int| 0 <= k < items1.len() implies wf_value(
                    #[trigger] items1[k],
                ) by {
                    assert(items1[k] == items[k + 1]);
                }
            }
        }
        let r2 = parse_arr_items(s, np1 + 1, out);
        proof {
            assert forall|items: Seq<ValueSpec>, rest: Seq<char>| #[trigger]
                arr_hyp(s@, pos as int, items, rest) implies ((r2 matches Some(np) && out@.len()
                == old(out)@.len() + items.len() && arr_view(out@) == arr_view(old(out)@) + items
                && np == pos + ser_arr(items).len() + 1)) by {
                lemma_ser_arr_head(items);
                let items1 = items.subrange(1, items.len() as int);
                assert(arr_hyp(s@, np1 + 1, items1, rest));
                lemma_arr_view_push(old(out)@, val);
                assert(mid == old(out)@.push(val));
                assert(arr_view(out@) == arr_view(mid) + items1);
                assert(arr_view(out@) =~= arr_view(old(out)@) + items);
            }
        }
        return r2;
    }
    proof {
        assert forall|items: Seq<ValueSpec>, rest: Seq<char>| #[trigger]
            arr_hyp(s@, pos as int, items, rest) implies false by {}
    }
    None
}

/// Parses the entries of a nonempty object body up to and including the
/// closing brace, appending the entries read to `out`.
#[verifier::loop_isolation(false)]
#[verifier::rlimit(100)]
#[verifier::spinoff_prover]
fn parse_obj_entries(s: &Vec<char>, pos: usize, out: &mut Vec<Entry>) -> (r: Option<usize>)
    requires
        pos <= s@.len(),
    ensures
        r matches Some(np) ==> pos < np <= s@.len(),
        forall|entries: Seq<(Seq<char>, ValueSpec)>, rest: Seq<char>| #[trigger]
            obj_hyp(s@, pos as int, entries, rest) ==> (r matches Some(np) && final(out)@.len()
                == old(out)@.len() + entries.len() && obj_view(final(out)@) == obj_view(old(out)@)
                + entries && np == pos + ser_obj(entries).len() + 1),
    decreases s@.len() - pos, 3int,
{
    proof {
        assert forall|entries: Seq<(Seq<char>, ValueSpec)>, rest: Seq<char>| #[trigger]
            obj_hyp(s@, pos as int, entries, rest) implies pos < s@.len() && s@[pos as int] == '"'
            && str_hyp(
            s@,
            pos + 1,
            entries[0].0,
            seq![':'] + ser(entries[0].1) + obj_tail_rest(entries, rest),
        ) by {
            lemma_ser_obj_head(entries);
            let e = entries[0];
            let after_key = seq![':'] + ser(e.1) + obj_tail_rest(entries, rest);
            assert(ser_obj(entries) + seq!['}'] + rest =~= seq!['"'] + (ser_str(e.0) + seq!['"']
                + after_key));
            lemma_prefix_extract(s@, pos as int, seq!['"'], ser_str(e.0) + seq!['"'] + after_key);
            assert(s@[pos + 0] == '"');
            assert(s@.subrange(pos + 1, s@.len() as int) =~= ser_str(e.0) + seq!['"'] + after_key);
            assert(ser_str(e.0) + seq!['"'] + after_key =~= ser_str(e.0) + seq!['"'] + after_key);
        }
    }
    if pos >= s.len() {
        proof {
            assert forall|entries: Seq<(Seq<char>, ValueSpec)>, rest: Seq<char>| #[trigger]
                obj_hyp(s@, pos as int, entries, rest) implies false by {}
        }
        return None;
    }
    if !(s[pos] == '"') {
        proof {
            assert forall|entries: Seq<(Seq<char>, ValueSpec)>, rest: Seq<char>| #[trigger]
                obj_hyp(s@, pos as int, entries, rest) implies false by {}
        }
        return None;
    }
    let mut keychars: Vec<char> = Vec::new();
    let rk = parse_str_rest(s, pos + 1, &mut keychars);
    let npk = match rk {
        Some(npk) => npk,
        None => {
            proof {
                assert forall|entries: Seq<(Seq<char>, ValueSpec)>, rest: Seq<char>| #[trigger]
                    obj_hyp(s@, pos as int, entries, rest) implies false by {}
            }
            return None;
        },
    };
    proof {
        assert forall|entries: Seq<(Seq<char>, ValueSpec)>, rest: Seq<char>| #[trigger]
            obj_hyp(s@, pos as int, entries, rest) implies keychars@ == entries[0].0 && npk == pos
            + 1 + ser_str(entries[0].0).len() + 1 && npk < s@.len() && s@[npk as int] == ':'
            && val_hyp(s@, npk + 1, entries[0].1, obj_tail_rest(entries, rest)) && wf_value(
            entries[0].1,
        ) by {
            let e = entries[0];
            let after_key = seq![':'] + ser(e.1) + obj_tail_rest(entries, rest);
            assert(str_hyp(s@, pos + 1, e.0, after_key));
            assert(keychars@ == Seq::<char>::empty() + e.0);
            assert(keychars@ =~= e.0);
            assert(s@.subrange(pos + 1, s@.len() as int) =~= ser_str(e.0) + seq!['"'] + after_key);
            assert(ser_str(e.0) + seq!['"'] + after_key =~= (ser_str(e.0) + seq!['"'])
                + after_key);
            lemma_prefix_extract(s@, pos + 1, ser_str(e.0) + seq!['"'], after_key);
            assert(s@[pos + 1 + (ser_str(e.0) + seq!['"']).len() + 0] == after_key[0]);
            assert(after_key =~= seq![':'] + (ser(e.1) + obj_tail_rest(entries, rest)));
            lemma_prefix_extract(s@, npk as int, seq![':'], ser(e.1) + obj_tail_rest(entries, rest));
            assert(s@.subrange(npk + 1, s@.len() as int) =~= ser(e.1) + obj_tail_rest(
                entries,
                rest,
            ));
            lemma_ser_obj_head(entries);
            if entries.len() == 1 {
                assert(obj_tail_rest(entries, rest)[0] == '}');
                assert(!is_digit(obj_tail_rest(entries, rest)[0]));
            } else {
                assert(obj_tail_rest(entries, rest)[0] == ',');
                assert(!is_digit(obj_tail_rest(entries, rest)[0]));
            }
        }
    }
    if npk >= s.len() {
        proof {
            assert forall|entries: Seq<(Seq<char>, ValueSpec)>, rest: Seq<char>| #[trigger]
                obj_hyp(s@, pos as int, entries, rest) implies false by {}
        }
        return None;
    }
    if !(s[npk] == ':') {
        proof {
            assert forall|entries: Seq<(Seq<char>, ValueSpec)>, rest: Seq<char>| #[trigger]
                obj_hyp(s@, pos as int, entries, rest) implies false by {}
        }
        return None;
    }
    let rv = parse_value(s, npk + 1);
    let (val, npv) = match rv {
        Some(p) => p,
        None => {
            proof {
                assert forall|entries: Seq<(Seq<char>, ValueSpec)>, rest: Seq<char>| #[trigger]
                    obj_hyp(s@, pos as int, entries, rest) implies false by {
                    assert(val_hyp(s@, npk + 1, entries[0].1, obj_tail_rest(entries, rest)));
                }
            }
            return None;
        },
    };
    let key = crate::text::chars_to_string(&keychars);
    out.push(Entry { key, value: val });
    let ghost mid = out@;
    proof {
        assert forall|entries: Seq<(Seq<char>, ValueSpec)>, rest: Seq<char>| #[trigger]
            obj_hyp(s@, pos as int, entries, rest) implies npv < s@.len() && s@[npv as int]
            == obj_tail_rest(entries, rest)[0] && val.view_spec() == entries[0].1 && npv == pos
            + ser_entry(entries[0]).len() by {
            assert(val_hyp(s@, npk + 1, entries[0].1, obj_tail_rest(entries, rest)));
            lemma_prefix_extract(s@, npk + 1, ser(entries[0].1), obj_tail_rest(entries, rest));
            assert(s@[npk + 1 + ser(entries[0].1).len() + 0] == obj_tail_rest(entries, rest)[0]);
        }
    }
    if npv >= s.len() {
        proof {
            assert forall|entries: Seq<(Seq<char>, ValueSpec)>, rest: Seq<char>| #[trigger]
                obj_hyp(s@, pos as int, entries, rest) implies false by {}
        }
        return None;
    }
    let c = s[npv];
    if c == '}' {
        proof {
            assert forall|entries: Seq<(Seq<char>, ValueSpec)>, rest: Seq<char>| #[trigger]
                obj_hyp(s@, pos as int, entries, rest) implies (out@.len() == old(out)@.len()
                + entries.len() && obj_view(out@) == obj_view(old(out)@) + entries && npv + 1 == pos
                + ser_obj(entries).len() + 1) by {
                lemma_ser_obj_head(entries);
                if entries.len() > 1 {
                    assert(obj_tail_rest(entries, rest)[0] == ',');
                }
                assert(entries.len() == 1);
                lemma_obj_view_push(old(out)@, mid.last());
                assert(obj_view(out@) =~= obj_view(old(out)@) + entries);
            }
        }
        return Some(npv + 1);
    }
    if c == ',' {
        proof {
            assert forall|entries: Seq<(Seq<char>, ValueSpec)>, rest: Seq<char>| #[trigger]
                obj_hyp(s@, pos as int, entries, rest) implies entries.len() > 1 && obj_hyp(
                s@,
                npv + 1,
                entries.subrange(1, entries.len() as int),
                rest,
            ) by {
                lemma_ser_obj_head(entries);
                if entries.len() == 1 {
                    assert(obj_tail_rest(entries, rest)[0] == '}');
                }
                let entries1 = entries.subrange(1, entries.len() as int);
                assert(val_hyp(s@, npk + 1, entries[0].1, obj_tail_rest(entries, rest)));
                lemma_prefix_extract(s@, npk + 1, ser(entries[0].1), obj_tail_rest(entries, rest));
                assert(s@.subrange(npv as int, s@.len() as int) =~= obj_tail_rest(entries, rest));
                assert(obj_tail_rest(entries, rest) =~= seq![','] + (ser_obj(entries1) + seq!['}']
                    + rest));
                lemma_prefix_extract(s@, npv as int, seq![','], ser_obj(entries1) + seq!['}']
                    + rest);
                assert(s@.subrange(npv + 1, s@.len() as int) =~= ser_obj(entries1) + seq!['}']
                    + rest);
                assert forall|k: int| 0 <= k < entries1.len() implies wf_value(
                    #[trigger] (entries1[k]).1,
                ) by {
                    assert(entries1[k] == entries[k + 1]);
                }
            }
        }
        let r2 = parse_obj_entries(s, npv + 1, out);
        proof {
            assert forall|entries: Seq<(Seq<char>, ValueSpec)>, rest: Seq<char>| #[trigger]
                obj_hyp(s@, pos as int, entries, rest) implies ((r2 matches Some(np) && out@.len()
                == old(out)@.len() + entries.len() && obj_view(out@) == obj_view(old(out)@)
                + entries && np == pos + ser_obj(entries).len() + 1)) by {
                lemma_ser_obj_head(entries);
                let entries1 = entries.subrange(1, entries.len() as int);
                assert(obj_hyp(s@, npv + 1, entries1, rest));
                lemma_obj_view_push(old(out)@, mid.last());
                assert(mid == old(out)@.push(mid.last()));
                assert(obj_view(out@) == obj_view(mid) + entries1);
                assert(obj_view(out@) =~= obj_view(old(out)@) + entries);
            }
        }
        return r2;
    }
    proof {
        assert forall|entries: Seq<(Seq<char>, ValueSpec)>, rest: Seq<char>| #[trigger]
            obj_hyp(s@, pos as int, entries, rest) implies false by {}
    }
    None
}

/// Restores a value from its canonical text: the inverse of
/// [`encode_value`] on every well-formed value.
pub fn decode_value(text: &Vec<char>) -> (r: Option<Value>)
    ensures
        forall|v: ValueSpec|
            wf_value(v) && text@ == #[trigger] ser(v) ==> (r matches Some(val) && val.view_spec()
                == v),
{
    proof {
        assert forall|v: ValueSpec| wf_value(v) && text@ == #[trigger] ser(v) implies val_hyp(
            text@,
            0,
            v,
            Seq::<char>::empty(),
        ) by {
            assert(text@.subrange(0, text@.len() as int) =~= ser(v) + Seq::<char>::empty());
        }
    }
    match parse_value(text, 0) {
        Some((val, np)) => {
            if np == text.len() {
                Some(val)
            } else {
                proof {
                    assert forall|v: ValueSpec|
                        wf_value(v) && text@ == #[trigger] ser(v) implies false by {
                        assert(val_hyp(text@, 0, v, Seq::<char>::empty()));
                    }
                }
                None
            }
        },
        None => {
            proof {
                assert forall|v: ValueSpec|
                    wf_value(v) && text@ == #[trigger] ser(v) implies false by {
                    assert(val_hyp(text@, 0, v, Seq::<char>::empty()));
                }
            }
            None
        },
    }
}

} // verus!
