use vstd::prelude::*;
use crate::chars::chars_of_str;
use crate::chars::string_of_chars;
use crate::json::Json;
use crate::json::JsonField;
use crate::json::JsonV;
use crate::json::arr_view;
use crate::json::obj_view;
use crate::json::dec_digit;
use crate::json::dec_rep;
use crate::json::esc_char;
use crate::json::hex_digit;
use crate::json::escape;
use crate::json::json_view;
use crate::json::lemma_arr_view_push;
use crate::json::lemma_obj_view_push;
use crate::json::ser_arr;
use crate::json::ser_field;
use crate::json::ser_int;
use crate::json::ser_json;
use crate::json::ser_obj;
use crate::text::subvec;

verus! {

proof fn lemma_escape_push(t: Seq<char>, c: char)
    ensures
        escape(t.push(c)) == escape(t) + esc_char(c),
{
    assert(t.push(c).drop_last() =~= t);
    assert(t.push(c).last() == c);
}

proof fn lemma_dec_rep_step(v: int, d: int)
    requires
        v >= 1,
        0 <= d <= 9,
    ensures
        dec_rep(10 * v + d) == dec_rep(v).push(dec_digit(d)),
{
    assert((10 * v + d) / 10 == v && (10 * v + d) % 10 == d && 10 * v + d >= 10)
        by (nonlinear_arith)
        requires
            v >= 1 && 0 <= d <= 9,
    ;
}

fn digit_val(c: char) -> (d: u64)
    requires
        '0' <= c && c <= '9',
    ensures
        d <= 9,
        dec_digit(d as int) == c,
{
    if c == '0' {
        0
    } else if c == '1' {
        1
    } else if c == '2' {
        2
    } else if c == '3' {
        3
    } else if c == '4' {
        4
    } else if c == '5' {
        5
    } else if c == '6' {
        6
    } else if c == '7' {
        7
    } else if c == '8' {
        8
    } else {
        proof {
            assert(c == '9');
        }
        9
    }
}

fn hex_val(c: char) -> (r: Option<u32>)
    ensures
        match r {
            Some(v) => v < 16 && hex_digit(v as int) == c,
            None => forall|d: int| 0 <= d < 16 ==> hex_digit(d) != c,
        },
{
    if c == '0' {
        Some(0)
    } else if c == '1' {
        Some(1)
    } else if c == '2' {
        Some(2)
    } else if c == '3' {
        Some(3)
    } else if c == '4' {
        Some(4)
    } else if c == '5' {
        Some(5)
    } else if c == '6' {
        Some(6)
    } else if c == '7' {
        Some(7)
    } else if c == '8' {
        Some(8)
    } else if c == '9' {
        Some(9)
    } else if c == 'a' {
        Some(10)
    } else if c == 'b' {
        Some(11)
    } else if c == 'c' {
        Some(12)
    } else if c == 'd' {
        Some(13)
    } else if c == 'e' {
        Some(14)
    } else if c == 'f' {
        Some(15)
    } else {
        proof {
            assert forall|d: int| 0 <= d < 16 implies hex_digit(d) != c by {
                if d == 0 {
                } else if d == 1 {
                } else if d == 2 {
                } else if d == 3 {
                } else if d == 4 {
                } else if d == 5 {
                } else if d == 6 {
                } else if d == 7 {
                } else if d == 8 {
                } else if d == 9 {
                } else if d == 10 {
                } else if d == 11 {
                } else if d == 12 {
                } else if d == 13 {
                } else if d == 14 {
                } else {
                }
            }
        }
        None
    }
}

/// The characters a JSON number can be written with.
pub open spec fn is_digit(c: char) -> bool {
    '0' <= c && c <= '9'
}

pub open spec fn is_num_char(c: char) -> bool {
    is_digit(c) || c == '-' || c == '+' || c == '.' || c == 'e' || c == 'E'
}

pub open spec fn has_digit(t: Seq<char>) -> bool {
    exists|k: int| 0 <= k < t.len() && is_digit(#[trigger] t[k])
}

fn is_num_char_exec(c: char) -> (r: bool)
    ensures
        r == is_num_char(c),
{
    ('0' <= c && c <= '9') || c == '-' || c == '+' || c == '.' || c == 'e' || c == 'E'
}

fn has_digit_exec(t: &Vec<char>) -> (r: bool)
    ensures
        r == has_digit(t@),
{
    let mut i: usize = 0;
    while i < t.len()
        invariant
            0 <= i <= t@.len(),
            forall|k: int| 0 <= k < i ==> !is_digit(#[trigger] t@[k]),
        decreases t@.len() - i,
    {
        if '0' <= t[i] && t[i] <= '9' {
            proof {
                assert(is_digit(t@[i as int]));
            }
            return true;
        }
        i = i + 1;
    }
    false
}


/// A serialized value can be read back: the spec side of that claim.
pub open spec fn canonical_int(t: Seq<char>) -> bool {
    exists|n: int|
        -9223372036854775808 <= n <= 9223372036854775807 && t == #[trigger] ser_int(n)
}

pub open spec fn wf_num_text(t: Seq<char>) -> bool {
    &&& t.len() > 0
    &&& (forall|k: int| 0 <= k < t.len() ==> is_num_char(#[trigger] t[k]))
    &&& (t[0] == '-' || is_digit(t[0]))
    &&& has_digit(t)
    &&& !canonical_int(t)
}

/// A value the serializer can produce and the parser must read back:
/// integral numbers in range, and textual numbers in number shape that are
/// not themselves canonical integral texts.
pub open spec fn wf_jv(v: JsonV) -> bool
    decreases v,
    via wf_jv_dec
{
    match v {
        JsonV::Null => true,
        JsonV::Bool(_) => true,
        JsonV::Int(n) => -9223372036854775808 <= n <= 9223372036854775807,
        JsonV::Num(t) => wf_num_text(t),
        JsonV::Str(_) => true,
        JsonV::Arr(items) => wf_arr(items),
        JsonV::Obj(fields) => wf_obj(fields),
    }
}

pub open spec fn wf_arr(items: Seq<JsonV>) -> bool
    decreases items,
    via wf_arr_dec
{
    if items.len() == 0 {
        true
    } else {
        wf_arr(items.drop_last()) && wf_jv(items.last())
    }
}

pub open spec fn wf_obj(fields: Seq<(Seq<char>, JsonV)>) -> bool
    decreases fields,
    via wf_obj_dec
{
    if fields.len() == 0 {
        true
    } else {
        wf_obj(fields.drop_last()) && wf_jv(fields.last().1)
    }
}

#[via_fn]
proof fn wf_jv_dec(v: JsonV) {
}

#[via_fn]
proof fn wf_arr_dec(items: Seq<JsonV>) {
    if items.len() > 0 {
        vstd::seq::axiom_seq_index_decreases(items, items.len() - 1);
        vstd::seq::axiom_seq_subrange_decreases(items, 0, items.len() - 1);
        assert(items.drop_last() == items.subrange(0, items.len() - 1));
    }
}

#[via_fn]
proof fn wf_obj_dec(fields: Seq<(Seq<char>, JsonV)>) {
    if fields.len() > 0 {
        vstd::seq::axiom_seq_index_decreases(fields, fields.len() - 1);
        vstd::seq::axiom_seq_subrange_decreases(fields, 0, fields.len() - 1);
        assert(fields.drop_last() == fields.subrange(0, fields.len() - 1));
    }
}

proof fn lemma_wf_arr(items: Seq<JsonV>)
    requires
        wf_arr(items),
    ensures
        forall|k: int| 0 <= k < items.len() ==> wf_jv(#[trigger] items[k]),
    decreases items.len(),
{
    if items.len() > 0 {
        lemma_wf_arr(items.drop_last());
        assert forall|k: int| 0 <= k < items.len() implies wf_jv(#[trigger] items[k]) by {
            if k < items.len() - 1 {
                assert(items[k] == items.drop_last()[k]);
            } else {
                assert(items[k] == items.last());
            }
        }
    }
}

proof fn lemma_wf_obj(fields: Seq<(Seq<char>, JsonV)>)
    requires
        wf_obj(fields),
    ensures
        forall|k: int| 0 <= k < fields.len() ==> wf_jv(#[trigger] fields[k].1),
    decreases fields.len(),
{
    if fields.len() > 0 {
        lemma_wf_obj(fields.drop_last());
        assert forall|k: int| 0 <= k < fields.len() implies wf_jv(#[trigger] fields[k].1) by {
            if k < fields.len() - 1 {
                assert(fields[k] == fields.drop_last()[k]);
            } else {
                assert(fields[k] == fields.last());
            }
        }
    }
}

/// The whole serialization of `v` sits at `pos`, followed by nothing or by a
/// separator or closer: the situations in which the parser owes a result.
pub open spec fn value_at(s: Seq<char>, pos: int, v: JsonV) -> bool {
    &&& wf_jv(v)
    &&& 0 <= pos
    &&& pos + ser_json(v).len() <= s.len()
    &&& s.subrange(pos, pos + ser_json(v).len()) == ser_json(v)
    &&& (pos + ser_json(v).len() == s.len() || s[pos + ser_json(v).len()] == ','
        || s[pos + ser_json(v).len()] == ']' || s[pos + ser_json(v).len()] == '}')
}

/// The full quoted form of the content `t` sits at `pos`.
pub open spec fn string_at(s: Seq<char>, pos: int, t: Seq<char>) -> bool {
    &&& 0 <= pos
    &&& pos + escape(t).len() + 2 <= s.len()
    &&& s[pos] == '"'
    &&& s.subrange(pos + 1, pos + 1 + escape(t).len()) == escape(t)
    &&& s[pos + 1 + escape(t).len()] == '"'
}

proof fn lemma_dec_digit(d: int)
    requires
        0 <= d <= 9,
    ensures
        dec_digit(d) as u32 == 48 + d,
{
    if d == 0 {
    } else if d == 1 {
    } else if d == 2 {
    } else if d == 3 {
    } else if d == 4 {
    } else if d == 5 {
    } else if d == 6 {
    } else if d == 7 {
    } else if d == 8 {
    } else {
    }
}

proof fn lemma_hex_digit(d: int)
    requires
        0 <= d < 16,
    ensures
        d < 10 ==> hex_digit(d) as u32 == 48 + d,
        d >= 10 ==> hex_digit(d) as u32 == 87 + d,
{
    if d == 0 {
    } else if d == 1 {
    } else if d == 2 {
    } else if d == 3 {
    } else if d == 4 {
    } else if d == 5 {
    } else if d == 6 {
    } else if d == 7 {
    } else if d == 8 {
    } else if d == 9 {
    } else if d == 10 {
    } else if d == 11 {
    } else if d == 12 {
    } else if d == 13 {
    } else if d == 14 {
    } else {
    }
}

proof fn lemma_dec_rep_props(n: int)
    requires
        n >= 0,
    ensures
        dec_rep(n).len() >= 1,
        forall|k: int| 0 <= k < dec_rep(n).len() ==> is_digit(#[trigger] dec_rep(n)[k]),
        (dec_rep(n)[0] == '0') == (n == 0),
        (dec_rep(n).len() == 1) == (n < 10),
    decreases n,
{
    if n < 10 {
        lemma_dec_digit(n);
        lemma_dec_digit(0);
        assert(dec_rep(n) == seq![dec_digit(n)]);
    } else {
        assert(n / 10 >= 1 && n / 10 < n && 0 <= n % 10 <= 9) by (nonlinear_arith)
            requires
                n >= 10,
        ;
        lemma_dec_rep_props(n / 10);
        lemma_dec_digit(n % 10);
        lemma_dec_digit(0);
        assert(dec_rep(n) == dec_rep(n / 10).push(dec_digit(n % 10)));
        assert forall|k: int| 0 <= k < dec_rep(n).len() implies is_digit(
            #[trigger] dec_rep(n)[k],
        ) by {
            if k < dec_rep(n / 10).len() {
                assert(dec_rep(n)[k] == dec_rep(n / 10)[k]);
            } else {
                assert(dec_rep(n)[k] == dec_digit(n % 10));
            }
        }
        assert(dec_rep(n)[0] == dec_rep(n / 10)[0]);
    }
}

proof fn lemma_dec_rep_inj(a: int, b: int)
    requires
        a >= 0,
        b >= 0,
        dec_rep(a) == dec_rep(b),
    ensures
        a == b,
    decreases a,
{
    lemma_dec_rep_props(a);
    lemma_dec_rep_props(b);
    if a < 10 && b < 10 {
        assert(dec_rep(a)[0] == dec_digit(a));
        assert(dec_rep(b)[0] == dec_digit(b));
        lemma_dec_digit(a);
        lemma_dec_digit(b);
    } else if a < 10 || b < 10 {
        assert(false);
    } else {
        assert(0 <= a % 10 <= 9 && 0 <= b % 10 <= 9 && a / 10 >= 1 && b / 10 >= 1 && a / 10 < a
            && a == 10 * (a / 10) + a % 10 && b == 10 * (b / 10) + b % 10) by (nonlinear_arith)
            requires
                a >= 10 && b >= 10,
        ;
        assert(dec_rep(a) == dec_rep(a / 10).push(dec_digit(a % 10)));
        assert(dec_rep(b) == dec_rep(b / 10).push(dec_digit(b % 10)));
        assert(dec_rep(a).last() == dec_digit(a % 10));
        assert(dec_rep(b).last() == dec_digit(b % 10));
        lemma_dec_digit(a % 10);
        lemma_dec_digit(b % 10);
        assert(dec_rep(a).drop_last() =~= dec_rep(a / 10));
        assert(dec_rep(b).drop_last() =~= dec_rep(b / 10));
        lemma_dec_rep_inj(a / 10, b / 10);
    }
}

proof fn lemma_dec_rep_prefix(m: int, k: int)
    requires
        m >= 0,
        1 <= k <= dec_rep(m).len(),
    ensures
        exists|m2: int| 0 <= m2 <= m && #[trigger] dec_rep(m2) == dec_rep(m).take(k),
    decreases m,
{
    lemma_dec_rep_props(m);
    if k == dec_rep(m).len() {
        assert(dec_rep(m).take(k) =~= dec_rep(m));
        assert(dec_rep(m) == dec_rep(m).take(k));
    } else {
        assert(m >= 10);
        assert(m / 10 >= 1 && m / 10 < m) by (nonlinear_arith)
            requires
                m >= 10,
        ;
        assert(dec_rep(m) == dec_rep(m / 10).push(dec_digit(m % 10)));
        assert(dec_rep(m).take(k) =~= dec_rep(m / 10).take(k));
        lemma_dec_rep_prefix(m / 10, k);
        let m2 = choose|m2: int| 0 <= m2 <= m / 10 && #[trigger] dec_rep(m2) == dec_rep(
            m / 10,
        ).take(k);
        assert(dec_rep(m2) == dec_rep(m).take(k));
    }
}

proof fn lemma_ser_int_props(n: int)
    ensures
        ser_int(n).len() >= 1,
        forall|k: int| 0 <= k < ser_int(n).len() ==> is_num_char(#[trigger] ser_int(n)[k]),
        n >= 0 ==> is_digit(ser_int(n)[0]),
        n < 0 ==> ser_int(n)[0] == '-',
        has_digit(ser_int(n)),
{
    if n >= 0 {
        lemma_dec_rep_props(n);
        assert(is_digit(ser_int(n)[0]));
    } else {
        lemma_dec_rep_props(-n);
        assert(ser_int(n) == seq!['-'] + dec_rep(-n));
        assert(ser_int(n)[0] == '-');
        assert forall|k: int| 0 <= k < ser_int(n).len() implies is_num_char(
            #[trigger] ser_int(n)[k],
        ) by {
            if k >= 1 {
                assert(ser_int(n)[k] == dec_rep(-n)[k - 1]);
            }
        }
        assert(is_digit(ser_int(n)[1]));
    }
}

proof fn lemma_ser_int_inj(a: int, b: int)
    requires
        ser_int(a) == ser_int(b),
    ensures
        a == b,
{
    lemma_ser_int_props(a);
    lemma_ser_int_props(b);
    if a >= 0 && b >= 0 {
        lemma_dec_rep_inj(a, b);
    } else if a < 0 && b < 0 {
        assert(ser_int(a).drop_first() =~= dec_rep(-a));
        assert(ser_int(b).drop_first() =~= dec_rep(-b));
        lemma_dec_rep_inj(-a, -b);
    } else {
        assert(false);
    }
}

proof fn lemma_escape_concat(a: Seq<char>, b: Seq<char>)
    ensures
        escape(a + b) == escape(a) + escape(b),
    decreases b.len(),
{
    if b.len() == 0 {
        assert(a + b =~= a);
        assert(escape(a) + escape(b) =~= escape(a));
    } else {
        lemma_escape_concat(a, b.drop_last());
        assert((a + b).drop_last() =~= a + b.drop_last());
        assert((a + b).last() == b.last());
        assert(escape(a + b) == escape(a + b.drop_last()) + esc_char(b.last()));
        assert(escape(b) == escape(b.drop_last()) + esc_char(b.last()));
        assert(escape(a) + escape(b.drop_last()) + esc_char(b.last()) =~= escape(a) + escape(b));
    }
}

proof fn lemma_escape_head(t: Seq<char>)
    requires
        t.len() > 0,
    ensures
        escape(t) == esc_char(t[0]) + escape(t.drop_first()),
{
    assert(t =~= seq![t[0]] + t.drop_first());
    lemma_escape_concat(seq![t[0]], t.drop_first());
    assert(escape(seq![t[0]]) == escape(Seq::<char>::empty()) + esc_char(t[0])) by {
        assert(seq![t[0]].drop_last() =~= Seq::<char>::empty());
        assert(seq![t[0]].last() == t[0]);
    }
    assert(escape(seq![t[0]]) =~= esc_char(t[0]));
}

proof fn lemma_esc_char_props(c: char)
    ensures
        esc_char(c).len() >= 1,
        esc_char(c)[0] != '"',
        esc_char(c)[0] as u32 >= 32,
        esc_char(c)[0] == '\\' || esc_char(c)[0] == c,
        esc_char(c)[0] == '\\' ==> c == '"' || c == '\\' || (c as u32) < 32,
{
}

proof fn lemma_ser_arr_head(items: Seq<JsonV>)
    requires
        items.len() > 0,
        wf_arr(items),
    ensures
        ser_arr(items).len() >= 1,
        ser_arr(items)[0] == ser_json(items[0])[0],
        ser_json(items[0]).len() >= 1,
    decreases items.len(),
{
    lemma_wf_arr(items);
    if items.len() == 1 {
        lemma_ser_head(items[0]);
    } else {
        assert(wf_arr(items.drop_last()));
        lemma_ser_arr_head(items.drop_last());
        assert(items.drop_last()[0] == items[0]);
        assert(ser_arr(items)[0] == ser_arr(items.drop_last())[0]);
    }
}

proof fn lemma_ser_obj_head(fields: Seq<(Seq<char>, JsonV)>)
    requires
        fields.len() > 0,
    ensures
        ser_obj(fields).len() >= 1,
        ser_obj(fields)[0] == '"',
    decreases fields.len(),
{
    if fields.len() == 1 {
        assert(ser_field(fields[0])[0] == '"');
    } else {
        lemma_ser_obj_head(fields.drop_last());
        assert(ser_obj(fields)[0] == ser_obj(fields.drop_last())[0]);
    }
}

/// The first character of a serialization names its variant.
proof fn lemma_ser_head(v: JsonV)
    requires
        wf_jv(v),
    ensures
        ser_json(v).len() >= 1,
        match v {
            JsonV::Null => ser_json(v)[0] == 'n',
            JsonV::Bool(b) => ser_json(v)[0] == (if b {
                't'
            } else {
                'f'
            }),
            JsonV::Int(_) => ser_json(v)[0] == '-' || is_digit(ser_json(v)[0]),
            JsonV::Num(_) => ser_json(v)[0] == '-' || is_digit(ser_json(v)[0]),
            JsonV::Str(_) => ser_json(v)[0] == '"',
            JsonV::Arr(_) => ser_json(v)[0] == '[',
            JsonV::Obj(_) => ser_json(v)[0] == '{',
        },
{
    match v {
        JsonV::Int(n) => {
            lemma_ser_int_props(n);
        },
        JsonV::Num(t) => {
            assert(ser_json(v) == t);
        },
        _ => {},
    }
}

proof fn lemma_char_code(a: char, b: char)
    requires
        a as u32 == b as u32,
    ensures
        a == b,
{
}

proof fn lemma_head_char(s: Seq<char>, pos: int, i: int, t: Seq<char>, k: int)
    requires
        string_at(s, pos, t),
        0 <= k <= t.len(),
        t.skip(k).len() > 0,
        s.subrange(i, pos + 1 + escape(t).len()) == escape(t.skip(k)),
        pos + 1 <= i,
        i <= pos + 1 + escape(t).len(),
    ensures
        escape(t.skip(k)) == esc_char(t.skip(k)[0]) + escape(t.skip(k).drop_first()),
        esc_char(t.skip(k)[0]).len() >= 1,
        i + esc_char(t.skip(k)[0]).len() <= pos + 1 + escape(t).len(),
        pos + 1 + escape(t).len() < s.len(),
        forall|q: int|
            0 <= q < esc_char(t.skip(k)[0]).len() ==> s[i + q] == #[trigger] esc_char(
                t.skip(k)[0],
            )[q],
{
    let t2 = t.skip(k);
    lemma_escape_head(t2);
    lemma_esc_char_props(t2[0]);
    assert(escape(t2).len() == esc_char(t2[0]).len() + escape(t2.drop_first()).len());
    assert(escape(t2).len() == pos + 1 + escape(t).len() - i);
    assert forall|q: int| 0 <= q < esc_char(t2[0]).len() implies s[i + q] == #[trigger] esc_char(
        t2[0],
    )[q] by {
        assert(escape(t2)[q] == esc_char(t2[0])[q]);
        assert(s.subrange(i, pos + 1 + escape(t).len())[q] == escape(t2)[q]);
        assert(s[i + q] == s.subrange(i, pos + 1 + escape(t).len())[q]);
    }
}

/// Read a quoted string starting at the opening quote; the result is the
/// unescaped content together with the position after the closing quote.
/// Whenever a full quoted form stands at `pos`, it is read back exactly.
#[verifier::rlimit(80)]
fn parse_string(s: &Vec<char>, pos: usize) -> (r: Option<(String, usize)>)
    requires
        pos <= s@.len(),
    ensures
        r is Some ==> pos < (r->Some_0).1 <= s@.len() && seq!['"'] + escape((r->Some_0).0@)
            + seq!['"'] == s@.subrange(pos as int, (r->Some_0).1 as int),
        forall|t: Seq<char>| #[trigger]
            string_at(s@, pos as int, t) ==> r is Some && (r->Some_0).0@ == t && (r->Some_0).1
                == pos + escape(t).len() + 2,
{
    if pos >= s.len() || s[pos] != '"' {
        proof {
            assert forall|t: Seq<char>| #[trigger] string_at(s@, pos as int, t) implies false by {}
        }
        return None;
    }
    let mut content: Vec<char> = Vec::new();
    let mut i: usize = pos + 1;
    loop
        invariant
            pos < s@.len(),
            s@[pos as int] == '"',
            pos + 1 <= i <= s@.len(),
            escape(content@) =~= s@.subrange(pos + 1, i as int),
            forall|t: Seq<char>| #[trigger]
                string_at(s@, pos as int, t) ==> content@.len() <= t.len() && content@ == t.take(
                    content@.len() as int,
                ),
        decreases s@.len() - i,
    {
        proof {
            assert forall|t: Seq<char>| #[trigger]
                string_at(s@, pos as int, t) implies s@.subrange(
                i as int,
                pos + 1 + escape(t).len(),
            ) == escape(t.skip(content@.len() as int)) && i <= pos + 1 + escape(t).len() by {
                let k = content@.len() as int;
                assert(t =~= t.take(k) + t.skip(k));
                lemma_escape_concat(t.take(k), t.skip(k));
                assert(escape(t.take(k)) == escape(content@));
                assert(escape(t) == escape(content@) + escape(t.skip(k)));
                assert(escape(t).len() == escape(content@).len() + escape(t.skip(k)).len());
                assert(i == pos + 1 + escape(content@).len());
                let e2 = escape(t.skip(k));
                let off = i - (pos + 1);
                assert forall|q: int| 0 <= q < e2.len() implies s@[i + q] == e2[q] by {
                    assert(escape(t)[off + q] == e2[q]);
                    assert(s@.subrange(pos + 1, pos + 1 + escape(t).len())[off + q] == escape(
                        t,
                    )[off + q]);
                    assert(s@[pos + 1 + (off + q)] == escape(t)[off + q]);
                }
                assert(s@.subrange(i as int, pos + 1 + escape(t).len()) =~= escape(t.skip(k)));
            }
        }
        if i >= s.len() {
            proof {
                assert forall|t: Seq<char>| #[trigger] string_at(s@, pos as int, t) implies false by {
                    assert(pos + 1 + escape(t).len() < s@.len());
                    assert(i <= pos + 1 + escape(t).len());
                }
            }
            return None;
        }
        let c = s[i];
        if c == '"' {
            let out = string_of_chars(&content);
            proof {
                assert(seq!['"'] + escape(content@) + seq!['"'] =~= s@.subrange(
                    pos as int,
                    i + 1,
                ));
                assert forall|t: Seq<char>| #[trigger]
                    string_at(s@, pos as int, t) implies content@ == t && i + 1 == pos + escape(
                    t,
                ).len() + 2 by {
                    let k = content@.len() as int;
                    let t2 = t.skip(k);
                    if t2.len() > 0 {
                        lemma_escape_head(t2);
                        lemma_head_char(s@, pos as int, i as int, t, content@.len() as int);
                        lemma_esc_char_props(t2[0]);
                        assert(escape(t2)[0] == esc_char(t2[0])[0]);
                        assert(s@[i as int] == escape(t2)[0]);
                        assert(false);
                    }
                    assert(t =~= t.take(k));
                }
            }
            return Some((out, i + 1));
        }
        proof {
            assert forall|t: Seq<char>| #[trigger]
                string_at(s@, pos as int, t) implies t.skip(content@.len() as int).len() > 0 by {
                let t2 = t.skip(content@.len() as int);
                if t2.len() == 0 {
                    assert(i == pos + 1 + escape(t).len());
                    assert(s@[i as int] == '"');
                }
            }
        }
        if c == '\\' {
            if i + 1 >= s.len() {
                proof {
                    assert forall|t: Seq<char>| #[trigger]
                        string_at(s@, pos as int, t) implies false by {
                        let t2 = t.skip(content@.len() as int);
                        lemma_escape_head(t2);
                        lemma_head_char(s@, pos as int, i as int, t, content@.len() as int);
                        lemma_esc_char_props(t2[0]);
                        assert(escape(t2).len() >= esc_char(t2[0]).len());
                        if esc_char(t2[0]).len() >= 2 {
                            assert(i + 1 < pos + 1 + escape(t).len() + 1);
                        } else {
                            assert(esc_char(t2[0]) =~= seq![t2[0]]);
                            assert(s@[i as int] == t2[0]);
                            assert(i < pos + 1 + escape(t).len());
                            assert(i + 1 <= pos + 1 + escape(t).len());
                        }
                        assert(pos + 1 + escape(t).len() < s@.len());
                    }
                }
                return None;
            }
            let d = s[i + 1];
            if d == '"' || d == '\\' {
                proof {
                    lemma_escape_push(content@, d);
                    assert(s@.subrange(pos + 1, i + 2) =~= s@.subrange(pos + 1, i as int)
                        + seq![c, d]);
                    assert forall|t: Seq<char>| #[trigger]
                        string_at(s@, pos as int, t) implies content@.push(d) == t.take(
                        content@.len() as int + 1,
                    ) && content@.len() + 1 <= t.len() by {
                        let t2 = t.skip(content@.len() as int);
                        lemma_escape_head(t2);
                        lemma_head_char(s@, pos as int, i as int, t, content@.len() as int);
                        lemma_esc_char_props(t2[0]);
                        assert(s@[i as int] == esc_char(t2[0])[0]);
                        assert(esc_char(t2[0])[0] == '\\');
                        if (t2[0] as u32) < 32 {
                            assert(esc_char(t2[0])[1] == 'u');
                            assert(s@[i + 1] == esc_char(t2[0])[1]);
                            assert(false);
                        }
                        assert(t2[0] == '"' || t2[0] == '\\');
                        assert(esc_char(t2[0])[1] == t2[0]);
                        assert(s@[i + 1] == esc_char(t2[0])[1]);
                        assert(t2[0] == d);
                        assert(t.take(content@.len() as int + 1) =~= t.take(
                            content@.len() as int,
                        ).push(t2[0]));
                    }
                }
                content.push(d);
                i = i + 2;
            } else if d == 'u' {
                proof {
                    assert forall|t: Seq<char>| #[trigger]
                        string_at(s@, pos as int, t) implies (t.skip(
                        content@.len() as int,
                    )[0] as u32) < 32 && i + 6 <= pos + 1 + escape(t).len() by {
                        let t2 = t.skip(content@.len() as int);
                        lemma_escape_head(t2);
                        lemma_head_char(s@, pos as int, i as int, t, content@.len() as int);
                        lemma_esc_char_props(t2[0]);
                        assert(s@[i as int] == esc_char(t2[0])[0]);
                        if !((t2[0] as u32) < 32) {
                            assert(esc_char(t2[0])[1] == t2[0] || esc_char(t2[0]).len() == 2);
                            if t2[0] == '"' || t2[0] == '\\' {
                                assert(s@[i + 1] == esc_char(t2[0])[1]);
                                assert(esc_char(t2[0])[1] == t2[0]);
                                assert(false);
                            } else {
                                assert(esc_char(t2[0])[0] == t2[0]);
                                assert(false);
                            }
                        }
                        assert(esc_char(t2[0]).len() == 6);
                        assert(escape(t2).len() >= 6);
                    }
                }
                if s.len() - i < 6 {
                    proof {
                        assert forall|t: Seq<char>| #[trigger]
                            string_at(s@, pos as int, t) implies false by {
                            assert(i + 6 <= pos + 1 + escape(t).len());
                            assert(pos + 1 + escape(t).len() < s@.len());
                        }
                    }
                    return None;
                }
                if s[i + 2] != '0' || s[i + 3] != '0' {
                    proof {
                        assert forall|t: Seq<char>| #[trigger]
                            string_at(s@, pos as int, t) implies false by {
                            let t2 = t.skip(content@.len() as int);
                            lemma_escape_head(t2);
                        lemma_head_char(s@, pos as int, i as int, t, content@.len() as int);
                            assert((t2[0] as u32) < 32);
                            assert(t2[0] != '"' && t2[0] != '\\');
                            assert(esc_char(t2[0]) =~= seq![
                                '\\',
                                'u',
                                '0',
                                '0',
                                hex_digit(t2[0] as u32 as int / 16),
                                hex_digit(t2[0] as u32 as int % 16),
                            ]);
                            assert(s@[i + 2] == esc_char(t2[0])[2]);
                            assert(s@[i + 3] == esc_char(t2[0])[3]);
                        }
                    }
                    return None;
                }
                let h1 = hex_val(s[i + 4]);
                let h2 = hex_val(s[i + 5]);
                match (h1, h2) {
                    (Some(v1), Some(v2)) => {
                        let code: u32 = v1 * 16 + v2;
                        if code >= 32 {
                            proof {
                                assert forall|t: Seq<char>| #[trigger]
                                    string_at(s@, pos as int, t) implies false by {
                                    let t2 = t.skip(content@.len() as int);
                                    lemma_escape_head(t2);
                        lemma_head_char(s@, pos as int, i as int, t, content@.len() as int);
                                    let c0 = t2[0] as u32;
                                    assert(c0 < 32);
                                    assert(t2[0] != '"' && t2[0] != '\\');
                                    assert(esc_char(t2[0]) =~= seq![
                                        '\\',
                                        'u',
                                        '0',
                                        '0',
                                        hex_digit(c0 as int / 16),
                                        hex_digit(c0 as int % 16),
                                    ]);
                                    assert(s@[i + 4] == esc_char(t2[0])[4]);
                                    assert(s@[i + 5] == esc_char(t2[0])[5]);
                                    assert(s@[i + 4] == hex_digit(c0 as int / 16));
                                    assert(s@[i + 5] == hex_digit(c0 as int % 16));
                                    assert(0 <= c0 as int / 16 < 16 && 0 <= c0 as int % 16 < 16);
                                    lemma_hex_digit(c0 as int / 16);
                                    lemma_hex_digit(c0 as int % 16);
                                    lemma_hex_digit(v1 as int);
                                    lemma_hex_digit(v2 as int);
                                    assert(v1 as int == c0 as int / 16);
                                    assert(v2 as int == c0 as int % 16);
                                    assert(code == c0) by (nonlinear_arith)
                                        requires
                                            code == v1 * 16 + v2 && v1 as int == c0 as int / 16
                                                && v2 as int == c0 as int % 16 && c0 < 4294967296,
                                    ;
                                }
                            }
                            return None;
                        }
                        let cc = (code as u8) as char;
                        proof {
                            assert(cc as u32 == code);
                            assert(code / 16 == v1 as int && code % 16 == v2 as int)
                                by (nonlinear_arith)
                                requires
                                    v2 < 16 && code == v1 * 16 + v2,
                            ;
                            lemma_escape_push(content@, cc);
                            assert(esc_char(cc) =~= seq![
                                '\\',
                                'u',
                                '0',
                                '0',
                                hex_digit(v1 as int),
                                hex_digit(v2 as int),
                            ]);
                            assert(s@.subrange(pos + 1, i + 6) =~= s@.subrange(pos + 1, i as int)
                                + seq![
                                s@[i as int],
                                s@[i + 1],
                                s@[i + 2],
                                s@[i + 3],
                                s@[i + 4],
                                s@[i + 5],
                            ]);
                            assert forall|t: Seq<char>| #[trigger]
                                string_at(s@, pos as int, t) implies content@.push(cc) == t.take(
                                content@.len() as int + 1,
                            ) && content@.len() + 1 <= t.len() by {
                                let t2 = t.skip(content@.len() as int);
                                lemma_escape_head(t2);
                        lemma_head_char(s@, pos as int, i as int, t, content@.len() as int);
                                let c0 = t2[0] as u32;
                                assert(c0 < 32);
                                assert(t2[0] != '"' && t2[0] != '\\');
                                assert(esc_char(t2[0]) =~= seq![
                                    '\\',
                                    'u',
                                    '0',
                                    '0',
                                    hex_digit(c0 as int / 16),
                                    hex_digit(c0 as int % 16),
                                ]);
                                assert(s@[i + 4] == esc_char(t2[0])[4]);
                                assert(s@[i + 5] == esc_char(t2[0])[5]);
                                assert(s@[i + 4] == hex_digit(c0 as int / 16));
                                assert(s@[i + 5] == hex_digit(c0 as int % 16));
                                assert(0 <= c0 as int / 16 < 16 && 0 <= c0 as int % 16 < 16);
                                lemma_hex_digit(c0 as int / 16);
                                lemma_hex_digit(c0 as int % 16);
                                lemma_hex_digit(v1 as int);
                                lemma_hex_digit(v2 as int);
                                assert(v1 as int == c0 as int / 16);
                                assert(v2 as int == c0 as int % 16);
                                assert(code == c0) by (nonlinear_arith)
                                    requires
                                        code == v1 * 16 + v2 && v1 as int == c0 as int / 16
                                            && v2 as int == c0 as int % 16 && c0 < 4294967296,
                                ;
                                assert(cc as u32 == t2[0] as u32);
                                lemma_char_code(cc, t2[0]);
                                assert(cc == t2[0]);
                                assert(t.take(content@.len() as int + 1) =~= t.take(
                                    content@.len() as int,
                                ).push(t2[0]));
                            }
                        }
                        content.push(cc);
                        i = i + 6;
                    },
                    _ => {
                        proof {
                            assert forall|t: Seq<char>| #[trigger]
                                string_at(s@, pos as int, t) implies false by {
                                let t2 = t.skip(content@.len() as int);
                                lemma_escape_head(t2);
                        lemma_head_char(s@, pos as int, i as int, t, content@.len() as int);
                                let c0 = t2[0] as u32;
                                assert(c0 < 32);
                                assert(t2[0] != '"' && t2[0] != '\\');
                                assert(esc_char(t2[0]) =~= seq![
                                    '\\',
                                    'u',
                                    '0',
                                    '0',
                                    hex_digit(c0 as int / 16),
                                    hex_digit(c0 as int % 16),
                                ]);
                                assert(s@[i + 4] == esc_char(t2[0])[4]);
                                assert(s@[i + 5] == esc_char(t2[0])[5]);
                                assert(s@[i + 4] == hex_digit(c0 as int / 16));
                                assert(s@[i + 5] == hex_digit(c0 as int % 16));
                                assert(0 <= c0 as int / 16 < 16 && 0 <= c0 as int % 16 < 16);
                            }
                        }
                        return None;
                    },
                }
            } else {
                proof {
                    assert forall|t: Seq<char>| #[trigger]
                        string_at(s@, pos as int, t) implies false by {
                        let t2 = t.skip(content@.len() as int);
                        lemma_escape_head(t2);
                        lemma_head_char(s@, pos as int, i as int, t, content@.len() as int);
                        lemma_esc_char_props(t2[0]);
                        assert(s@[i as int] == esc_char(t2[0])[0]);
                        assert(esc_char(t2[0])[0] == '\\');
                        if (t2[0] as u32) < 32 {
                            assert(s@[i + 1] == esc_char(t2[0])[1]);
                        } else {
                            assert(s@[i + 1] == esc_char(t2[0])[1]);
                        }
                    }
                }
                return None;
            }
        } else if (c as u32) < 32 {
            proof {
                assert forall|t: Seq<char>| #[trigger] string_at(s@, pos as int, t) implies false by {
                    let t2 = t.skip(content@.len() as int);
                    lemma_escape_head(t2);
                        lemma_head_char(s@, pos as int, i as int, t, content@.len() as int);
                    lemma_esc_char_props(t2[0]);
                    assert(s@[i as int] == esc_char(t2[0])[0]);
                }
            }
            return None;
        } else {
            proof {
                lemma_escape_push(content@, c);
                assert(s@.subrange(pos + 1, i + 1) =~= s@.subrange(pos + 1, i as int).push(c));
                assert forall|t: Seq<char>| #[trigger]
                    string_at(s@, pos as int, t) implies content@.push(c) == t.take(
                    content@.len() as int + 1,
                ) && content@.len() + 1 <= t.len() by {
                    let t2 = t.skip(content@.len() as int);
                    lemma_escape_head(t2);
                        lemma_head_char(s@, pos as int, i as int, t, content@.len() as int);
                    lemma_esc_char_props(t2[0]);
                    assert(s@[i as int] == esc_char(t2[0])[0]);
                    assert(esc_char(t2[0])[0] == t2[0]);
                    assert(t.take(content@.len() as int + 1) =~= t.take(content@.len() as int).push(
                        t2[0],
                    ));
                }
            }
            content.push(c);
            i = i + 1;
        }
    }
}

/// Interpret a whole character run as the canonical text of an integral
/// value: an optional minus sign, no leading zero, a magnitude in range.
fn int_of_canonical(t: &Vec<char>) -> (r: Option<i64>)
    ensures
        match r {
            Some(n) => t@ == ser_int(n as int),
            None => !canonical_int(t@),
        },
{
    if t.len() == 0 {
        proof {
            assert(!canonical_int(t@)) by {
                if canonical_int(t@) {
                    let n = choose|n: int|
                        -9223372036854775808 <= n <= 9223372036854775807 && t@
                            == #[trigger] ser_int(n);
                    lemma_ser_int_props(n);
                }
            }
        }
        return None;
    }
    let neg = t[0] == '-';
    let dstart: usize = if neg {
        1
    } else {
        0
    };
    if dstart >= t.len() {
        proof {
            assert(!canonical_int(t@)) by {
                if canonical_int(t@) {
                    let n = choose|n: int|
                        -9223372036854775808 <= n <= 9223372036854775807 && t@
                            == #[trigger] ser_int(n);
                    lemma_ser_int_props(n);
                    if n < 0 {
                        assert(ser_int(n) == seq!['-'] + dec_rep(-n));
                        lemma_dec_rep_props(-n);
                    }
                }
            }
        }
        return None;
    }
    let c0 = t[dstart];
    if !('0' <= c0 && c0 <= '9') {
        proof {
            assert(!canonical_int(t@)) by {
                if canonical_int(t@) {
                    let n = choose|n: int|
                        -9223372036854775808 <= n <= 9223372036854775807 && t@
                            == #[trigger] ser_int(n);
                    lemma_ser_int_props(n);
                    if n < 0 {
                        assert(ser_int(n) == seq!['-'] + dec_rep(-n));
                        lemma_dec_rep_props(-n);
                        assert(t@[1] == dec_rep(-n)[0]);
                        assert(is_digit(t@[1]));
                    }
                }
            }
        }
        return None;
    }
    if c0 == '0' {
        if neg || t.len() > 1 {
            proof {
                assert(!canonical_int(t@)) by {
                    if canonical_int(t@) {
                        let n = choose|n: int|
                            -9223372036854775808 <= n <= 9223372036854775807 && t@
                                == #[trigger] ser_int(n);
                        lemma_ser_int_props(n);
                        if n < 0 {
                            assert(ser_int(n) == seq!['-'] + dec_rep(-n));
                            lemma_dec_rep_props(-n);
                            assert(t@[1] == dec_rep(-n)[0]);
                        } else {
                            lemma_dec_rep_props(n);
                        }
                    }
                }
            }
            return None;
        }
        proof {
            assert(dec_rep(0) =~= seq![dec_digit(0)]);
            assert(dec_digit(0) == '0');
            assert(t@ =~= seq!['0']);
        }
        return Some(0i64);
    }
    let d0 = digit_val(c0);
    let mut acc: u128 = d0 as u128;
    let mut i: usize = dstart + 1;
    proof {
        assert(dec_rep(acc as int) =~= seq![dec_digit(d0 as int)]);
        assert(t@.subrange(dstart as int, dstart + 1) =~= seq![c0]);
    }
    while i < t.len()
        invariant
            dstart < i <= t@.len(),
            dstart <= 1,
            (t@[0] == '-') <==> (dstart == 1),
            1 <= acc <= 9223372036854775808u128,
            dec_rep(acc as int) =~= t@.subrange(dstart as int, i as int),
        decreases t@.len() - i,
    {
        let c = t[i];
        if !('0' <= c && c <= '9') {
            proof {
                assert(!canonical_int(t@)) by {
                    if canonical_int(t@) {
                        let n = choose|n: int|
                            -9223372036854775808 <= n <= 9223372036854775807 && t@
                                == #[trigger] ser_int(n);
                        lemma_ser_int_props(n);
                        if n >= 0 {
                            lemma_dec_rep_props(n);
                            assert(t@[i as int] == dec_rep(n)[i as int]);
                        } else {
                            assert(ser_int(n) == seq!['-'] + dec_rep(-n));
                            lemma_dec_rep_props(-n);
                            assert(t@[i as int] == dec_rep(-n)[i - 1]);
                        }
                    }
                }
            }
            return None;
        }
        let d = digit_val(c);
        let next: u128 = acc * 10 + (d as u128);
        if next > 9223372036854775808u128 {
            proof {
                assert(!canonical_int(t@)) by {
                    if canonical_int(t@) {
                        let n = choose|n: int|
                            -9223372036854775808 <= n <= 9223372036854775807 && t@
                                == #[trigger] ser_int(n);
                        lemma_ser_int_props(n);
                        let m: int = if n < 0 {
                            -n
                        } else {
                            n
                        };
                        lemma_dec_rep_props(m);
                        if n < 0 {
                            assert(ser_int(n) == seq!['-'] + dec_rep(-n));
                            assert(t@.subrange(1, t@.len() as int) =~= dec_rep(m));
                        } else {
                            assert(t@.subrange(0, t@.len() as int) =~= dec_rep(m));
                        }
                        let k: int = i + 1 - dstart;
                        assert(dec_rep(m).len() == t@.len() - dstart);
                        lemma_dec_rep_prefix(m, k);
                        let m2 = choose|m2: int|
                            0 <= m2 <= m && #[trigger] dec_rep(m2) == dec_rep(m).take(k);
                        assert(dec_rep(m).take(k) =~= t@.subrange(dstart as int, i + 1));
                        lemma_dec_rep_step(acc as int, d as int);
                        assert(t@.subrange(dstart as int, i + 1) =~= t@.subrange(
                            dstart as int,
                            i as int,
                        ).push(t@[i as int]));
                        assert(dec_rep(next as int) =~= t@.subrange(dstart as int, i + 1));
                        lemma_dec_rep_inj(next as int, m2);
                    }
                }
            }
            return None;
        }
        proof {
            lemma_dec_rep_step(acc as int, d as int);
            assert(t@.subrange(dstart as int, i + 1) =~= t@.subrange(dstart as int, i as int).push(
                t@[i as int],
            ));
        }
        acc = next;
        i = i + 1;
    }
    if neg {
        let v: i64 = (-(acc as i128)) as i64;
        proof {
            assert(v as int == -(acc as int));
            assert(t@ =~= seq!['-'] + t@.subrange(1, t@.len() as int));
        }
        Some(v)
    } else {
        if acc > 9223372036854775807u128 {
            proof {
                assert(!canonical_int(t@)) by {
                    if canonical_int(t@) {
                        let n = choose|n: int|
                            -9223372036854775808 <= n <= 9223372036854775807 && t@
                                == #[trigger] ser_int(n);
                        lemma_ser_int_props(n);
                        lemma_dec_rep_props(if n < 0 {
                            -n
                        } else {
                            n
                        });
                        assert(n >= 0);
                        assert(t@.subrange(0, t@.len() as int) =~= t@);
                        lemma_dec_rep_inj(acc as int, n);
                    }
                }
            }
            return None;
        }
        let v: i64 = acc as i64;
        proof {
            assert(t@ =~= t@.subrange(0, t@.len() as int));
        }
        Some(v)
    }
}

pub open spec fn ser_arr_suffix(items: Seq<JsonV>, k: int) -> Seq<char>
    decreases items.len() - k,
    when 0 <= k <= items.len()
{
    if k >= items.len() {
        Seq::empty()
    } else {
        seq![','] + ser_json(items[k]) + ser_arr_suffix(items, k + 1)
    }
}

pub open spec fn ser_obj_suffix(fields: Seq<(Seq<char>, JsonV)>, k: int) -> Seq<char>
    decreases fields.len() - k,
    when 0 <= k <= fields.len()
{
    if k >= fields.len() {
        Seq::empty()
    } else {
        seq![','] + ser_field(fields[k]) + ser_obj_suffix(fields, k + 1)
    }
}

proof fn lemma_ser_arr_split(items: Seq<JsonV>, k: int)
    requires
        1 <= k <= items.len(),
    ensures
        ser_arr(items) == ser_arr(items.take(k)) + ser_arr_suffix(items, k),
    decreases items.len() - k,
{
    if k == items.len() {
        assert(items.take(k) =~= items);
        assert(ser_arr(items) =~= ser_arr(items.take(k)) + ser_arr_suffix(items, k));
    } else {
        lemma_ser_arr_split(items, k + 1);
        assert(items.take(k + 1).drop_last() =~= items.take(k));
        assert(items.take(k + 1).last() == items[k]);
        assert(ser_arr(items.take(k + 1)) == ser_arr(items.take(k)) + seq![','] + ser_json(
            items[k],
        ));
        assert(ser_arr(items.take(k)) + ser_arr_suffix(items, k) =~= ser_arr(items.take(k + 1))
            + ser_arr_suffix(items, k + 1));
    }
}

proof fn lemma_ser_obj_split(fields: Seq<(Seq<char>, JsonV)>, k: int)
    requires
        1 <= k <= fields.len(),
    ensures
        ser_obj(fields) == ser_obj(fields.take(k)) + ser_obj_suffix(fields, k),
    decreases fields.len() - k,
{
    if k == fields.len() {
        assert(fields.take(k) =~= fields);
        assert(ser_obj(fields) =~= ser_obj(fields.take(k)) + ser_obj_suffix(fields, k));
    } else {
        lemma_ser_obj_split(fields, k + 1);
        assert(fields.take(k + 1).drop_last() =~= fields.take(k));
        assert(fields.take(k + 1).last() == fields[k]);
        assert(ser_obj(fields.take(k + 1)) == ser_obj(fields.take(k)) + seq![','] + ser_field(
            fields[k],
        ));
        assert(ser_obj(fields.take(k)) + ser_obj_suffix(fields, k) =~= ser_obj(fields.take(k + 1))
            + ser_obj_suffix(fields, k + 1));
    }
}

proof fn lemma_value_head(s: Seq<char>, pos: int, v: JsonV)
    requires
        value_at(s, pos, v),
    ensures
        pos < s.len(),
        ser_json(v).len() >= 1,
        s[pos] == ser_json(v)[0],
        match v {
            JsonV::Null => s[pos] == 'n',
            JsonV::Bool(b) => s[pos] == (if b {
                't'
            } else {
                'f'
            }),
            JsonV::Int(_) => s[pos] == '-' || is_digit(s[pos]),
            JsonV::Num(_) => s[pos] == '-' || is_digit(s[pos]),
            JsonV::Str(_) => s[pos] == '"',
            JsonV::Arr(_) => s[pos] == '[',
            JsonV::Obj(_) => s[pos] == '{',
        },
{
    lemma_ser_head(v);
    assert(s.subrange(pos, pos + ser_json(v).len())[0] == s[pos]);
}

/// One element step inside an array text: where the serialization of the
/// next element stands, and what follows it.
proof fn lemma_arr_step(s: Seq<char>, pos: int, v: JsonV, k: int, cur: int)
    requires
        value_at(s, pos, v),
        v is Arr,
        0 <= k < v->Arr_0.len(),
        k == 0 ==> cur == pos + 1,
        k > 0 ==> s.subrange(pos, cur) == seq!['['] + ser_arr(v->Arr_0.take(k)) + seq![','],
        pos < cur,
        cur <= s.len(),
    ensures
        value_at(s, cur, v->Arr_0[k]),
        cur + ser_json(v->Arr_0[k]).len() < s.len(),
        k + 1 < v->Arr_0.len() ==> s[cur + ser_json(v->Arr_0[k]).len()] == ',',
        k + 1 == v->Arr_0.len() ==> s[cur + ser_json(v->Arr_0[k]).len()] == ']',
        s.subrange(pos, cur + ser_json(v->Arr_0[k]).len() + 1) == seq!['['] + ser_arr(
            v->Arr_0.take(k + 1),
        ) + (if k + 1 < v->Arr_0.len() {
            seq![',']
        } else {
            seq![']']
        }),
        k + 1 == v->Arr_0.len() ==> cur + ser_json(v->Arr_0[k]).len() + 1 == pos + ser_json(
            v,
        ).len(),
{
    let va = v->Arr_0;
    let e = va[k];
    let n = va.len() as int;
    lemma_wf_arr(va);
    let full = seq!['['] + ser_arr(va) + seq![']'];
    assert(ser_json(v) == full);
    assert(s.subrange(pos, pos + full.len()) == full);
    assert forall|q: int| 0 <= q < full.len() implies s[pos + q] == full[q] by {
        assert(s.subrange(pos, pos + full.len())[q] == s[pos + q]);
    }
    if k == 0 {
        if n == 1 {
            assert(ser_arr(va) == ser_json(va[0]));
        } else {
            lemma_ser_arr_split(va, 1);
            assert(va.take(1).len() == 1);
            assert(va.take(1)[0] == va[0]);
            assert(ser_arr(va.take(1)) == ser_json(va[0]));
            assert(ser_arr_suffix(va, 1) == seq![','] + ser_json(va[1]) + ser_arr_suffix(va, 2));
            assert(ser_arr_suffix(va, 1)[0] == ',');
        }
    } else {
        lemma_ser_arr_split(va, k);
        assert(ser_arr_suffix(va, k) == seq![','] + ser_json(e) + ser_arr_suffix(va, k + 1));
        if k + 1 < n {
            assert(ser_arr_suffix(va, k + 1) == seq![','] + ser_json(va[k + 1]) + ser_arr_suffix(
                va,
                k + 2,
            ));
            assert(ser_arr_suffix(va, k + 1)[0] == ',');
        } else {
            assert(ser_arr_suffix(va, k + 1) =~= Seq::<char>::empty());
        }
        assert(s.subrange(pos, cur).len() == cur - pos);
        assert((seq!['['] + ser_arr(va.take(k)) + seq![',']).len() == 1 + ser_arr(
            va.take(k),
        ).len() + 1);
        assert(cur == pos + 1 + ser_arr(va.take(k)).len() + 1);
    }
    let le = ser_json(e).len() as int;
    // the element's characters
    assert forall|q: int| 0 <= q < le implies s[cur + q] == ser_json(e)[q] by {
        if k == 0 {
            if n == 1 {
                assert(full[1 + q] == ser_json(e)[q]);
            } else {
                assert(ser_arr(va)[q] == ser_json(e)[q]);
                assert(full[1 + q] == ser_arr(va)[q]);
            }
        } else {
            assert(ser_arr(va)[ser_arr(va.take(k)).len() + 1 + q] == ser_json(e)[q]);
            assert(full[1 + ser_arr(va.take(k)).len() + 1 + q] == ser_arr(va)[ser_arr(
                va.take(k),
            ).len() + 1 + q]);
        }
    }
    assert(s.subrange(cur, cur + le) =~= ser_json(e));
    // the character after the element
    if k + 1 < n {
        if k == 0 {
            assert(full[1 + le] == ser_arr(va)[le]);
            assert(ser_arr(va)[le] == ',');
        } else {
            assert(full[1 + ser_arr(va.take(k)).len() + 1 + le] == ser_arr(va)[ser_arr(
                va.take(k),
            ).len() + 1 + le]);
            assert(ser_arr(va)[ser_arr(va.take(k)).len() + 1 + le] == ',');
        }
        assert(s[cur + le] == ',');
    } else {
        assert(cur + le == pos + 1 + ser_arr(va).len());
        assert(full[1 + ser_arr(va).len() as int] == ']');
        assert(s[cur + le] == ']');
    }
    assert(cur + le < pos + full.len());
    assert(value_at(s, cur, e)) by {
        assert(wf_jv(e));
        assert(s[cur + le] == ',' || s[cur + le] == ']');
    }
    // the prefix shape for the next round
    assert(va.take(k + 1).drop_last() =~= va.take(k));
    assert(va.take(k + 1).last() == e);
    if k == 0 {
        assert(ser_arr(va.take(1)) == ser_json(e)) by {
            assert(va.take(1).len() == 1);
            assert(va.take(1)[0] == va[0]);
        }
    } else {
        assert(ser_arr(va.take(k + 1)) == ser_arr(va.take(k)) + seq![','] + ser_json(e));
    }
    assert(s.subrange(pos, cur + le + 1) =~= seq!['['] + ser_arr(va.take(k + 1)) + (if k + 1 < n {
        seq![',']
    } else {
        seq![']']
    }));
    if k + 1 == n {
        assert(va.take(k + 1) =~= va);
    }
}

/// One field step inside an object text: where the name, the colon, and the
/// value stand, and what follows the field.
proof fn lemma_obj_step(s: Seq<char>, pos: int, v: JsonV, k: int, cur: int)
    requires
        value_at(s, pos, v),
        v is Obj,
        0 <= k < v->Obj_0.len(),
        k == 0 ==> cur == pos + 1,
        k > 0 ==> s.subrange(pos, cur) == seq!['{'] + ser_obj(v->Obj_0.take(k)) + seq![','],
        pos < cur,
        cur <= s.len(),
    ensures
        string_at(s, cur, v->Obj_0[k].0),
        s[cur + escape(v->Obj_0[k].0).len() + 2] == ':',
        value_at(s, cur + escape(v->Obj_0[k].0).len() + 3, v->Obj_0[k].1),
        ser_field(v->Obj_0[k]).len() == escape(v->Obj_0[k].0).len() + 3 + ser_json(
            v->Obj_0[k].1,
        ).len(),
        cur + ser_field(v->Obj_0[k]).len() < s.len(),
        k + 1 < v->Obj_0.len() ==> s[cur + ser_field(v->Obj_0[k]).len()] == ',',
        k + 1 == v->Obj_0.len() ==> s[cur + ser_field(v->Obj_0[k]).len()] == '}',
        s.subrange(pos, cur + ser_field(v->Obj_0[k]).len() + 1) == seq!['{'] + ser_obj(
            v->Obj_0.take(k + 1),
        ) + (if k + 1 < v->Obj_0.len() {
            seq![',']
        } else {
            seq!['}']
        }),
        k + 1 == v->Obj_0.len() ==> cur + ser_field(v->Obj_0[k]).len() + 1 == pos + ser_json(
            v,
        ).len(),
{
    let fo = v->Obj_0;
    let f = fo[k];
    let n = fo.len() as int;
    lemma_wf_obj(fo);
    let full = seq!['{'] + ser_obj(fo) + seq!['}'];
    assert(ser_json(v) == full);
    assert(s.subrange(pos, pos + full.len()) == full);
    assert forall|q: int| 0 <= q < full.len() implies s[pos + q] == full[q] by {
        assert(s.subrange(pos, pos + full.len())[q] == s[pos + q]);
    }
    let fe = ser_field(f);
    assert(fe == seq!['"'] + escape(f.0) + seq!['"', ':'] + ser_json(f.1));
    if k == 0 {
        if n == 1 {
            assert(ser_obj(fo) == fe);
        } else {
            lemma_ser_obj_split(fo, 1);
            assert(fo.take(1).len() == 1);
            assert(fo.take(1)[0] == fo[0]);
            assert(ser_obj(fo.take(1)) == fe);
            assert(ser_obj_suffix(fo, 1) == seq![','] + ser_field(fo[1]) + ser_obj_suffix(fo, 2));
            assert(ser_obj_suffix(fo, 1)[0] == ',');
        }
    } else {
        lemma_ser_obj_split(fo, k);
        assert(ser_obj_suffix(fo, k) == seq![','] + fe + ser_obj_suffix(fo, k + 1));
        if k + 1 < n {
            assert(ser_obj_suffix(fo, k + 1) == seq![','] + ser_field(fo[k + 1]) + ser_obj_suffix(
                fo,
                k + 2,
            ));
            assert(ser_obj_suffix(fo, k + 1)[0] == ',');
        } else {
            assert(ser_obj_suffix(fo, k + 1) =~= Seq::<char>::empty());
        }
        assert(s.subrange(pos, cur).len() == cur - pos);
        assert((seq!['{'] + ser_obj(fo.take(k)) + seq![',']).len() == 1 + ser_obj(
            fo.take(k),
        ).len() + 1);
        assert(cur == pos + 1 + ser_obj(fo.take(k)).len() + 1);
    }
    let le = fe.len() as int;
    assert forall|q: int| 0 <= q < le implies s[cur + q] == fe[q] by {
        if k == 0 {
            if n == 1 {
                assert(full[1 + q] == fe[q]);
            } else {
                assert(ser_obj(fo)[q] == fe[q]);
                assert(full[1 + q] == ser_obj(fo)[q]);
            }
        } else {
            assert(ser_obj(fo)[ser_obj(fo.take(k)).len() + 1 + q] == fe[q]);
            assert(full[1 + ser_obj(fo.take(k)).len() + 1 + q] == ser_obj(fo)[ser_obj(
                fo.take(k),
            ).len() + 1 + q]);
        }
    }
    assert(s.subrange(cur, cur + le) =~= fe);
    if k + 1 < n {
        if k == 0 {
            assert(full[1 + le] == ser_obj(fo)[le]);
            assert(ser_obj(fo)[le] == ',');
        } else {
            assert(full[1 + ser_obj(fo.take(k)).len() + 1 + le] == ser_obj(fo)[ser_obj(
                fo.take(k),
            ).len() + 1 + le]);
            assert(ser_obj(fo)[ser_obj(fo.take(k)).len() + 1 + le] == ',');
        }
        assert(s[cur + le] == ',');
    } else {
        assert(cur + le == pos + 1 + ser_obj(fo).len());
        assert(full[1 + ser_obj(fo).len() as int] == '}');
        assert(s[cur + le] == '}');
    }
    assert(cur + le < pos + full.len());
    let en = escape(f.0).len() as int;
    assert(string_at(s, cur, f.0)) by {
        assert(s[cur] == fe[0]);
        assert forall|q: int| 0 <= q < en implies s.subrange(cur + 1, cur + 1 + en)[q] == escape(
            f.0,
        )[q] by {
            assert(fe[1 + q] == escape(f.0)[q]);
            assert(s[cur + 1 + q] == fe[1 + q]);
        }
        assert(s.subrange(cur + 1, cur + 1 + en) =~= escape(f.0));
        assert(s[cur + 1 + en] == fe[1 + en]);
    }
    assert(s[cur + en + 2] == fe[en + 2]);
    let vpos = cur + en + 3;
    let lv = ser_json(f.1).len() as int;
    assert(value_at(s, vpos, f.1)) by {
        assert(wf_jv(f.1));
        assert forall|q: int| 0 <= q < lv implies s.subrange(vpos, vpos + lv)[q] == ser_json(
            f.1,
        )[q] by {
            assert(fe[en + 3 + q] == ser_json(f.1)[q]);
            assert(s[vpos + q] == fe[en + 3 + q]);
        }
        assert(s.subrange(vpos, vpos + lv) =~= ser_json(f.1));
        assert(vpos + lv == cur + le);
        assert(s[cur + le] == ',' || s[cur + le] == '}');
    }
    assert(fo.take(k + 1).drop_last() =~= fo.take(k));
    assert(fo.take(k + 1).last() == f);
    if k == 0 {
        assert(ser_obj(fo.take(1)) == fe) by {
            assert(fo.take(1).len() == 1);
            assert(fo.take(1)[0] == fo[0]);
        }
    } else {
        assert(ser_obj(fo.take(k + 1)) == ser_obj(fo.take(k)) + seq![','] + fe);
    }
    assert(s.subrange(pos, cur + le + 1) =~= seq!['{'] + ser_obj(fo.take(k + 1)) + (if k + 1 < n {
        seq![',']
    } else {
        seq!['}']
    }));
    if k + 1 == n {
        assert(fo.take(k + 1) =~= fo);
    }
}

/// Read one JSON value starting at `pos`. A value is returned only when the
/// characters consumed are exactly its serialized text; and whenever a whole
/// serialized value stands at `pos`, it is read back as that value.
#[verifier::rlimit(80)]
pub fn parse_value(s: &Vec<char>, pos: usize) -> (r: Option<(Json, usize)>)
    requires
        pos <= s@.len(),
    ensures
        r is Some ==> pos < (r->Some_0).1 <= s@.len() && ser_json(json_view((r->Some_0).0))
            == s@.subrange(pos as int, (r->Some_0).1 as int),
        forall|v: JsonV| #[trigger]
            value_at(s@, pos as int, v) ==> r is Some && json_view((r->Some_0).0) == v && (
            r->Some_0).1 == pos + ser_json(v).len(),
    decreases s@.len() - pos,
{
    if pos >= s.len() {
        proof {
            assert forall|v: JsonV| #[trigger] value_at(s@, pos as int, v) implies false by {
                lemma_value_head(s@, pos as int, v);
            }
        }
        return None;
    }
    let c = s[pos];
    if c == 'n' {
        if s.len() - pos >= 4 && s[pos + 1] == 'u' && s[pos + 2] == 'l' && s[pos + 3] == 'l' {
            proof {
                assert(s@.subrange(pos as int, pos + 4) =~= seq!['n', 'u', 'l', 'l']);
                assert forall|v: JsonV| #[trigger]
                    value_at(s@, pos as int, v) implies v == JsonV::Null && pos + 4 == pos
                    + ser_json(v).len() by {
                    lemma_value_head(s@, pos as int, v);
                }
            }
            return Some((Json::Null, pos + 4));
        }
        proof {
            assert forall|v: JsonV| #[trigger] value_at(s@, pos as int, v) implies false by {
                lemma_value_head(s@, pos as int, v);
                assert(v is Null);
                assert(ser_json(v) =~= seq!['n', 'u', 'l', 'l']);
                assert(s@[pos + 1] == s@.subrange(pos as int, pos + 4)[1]);
                assert(s@[pos + 2] == s@.subrange(pos as int, pos + 4)[2]);
                assert(s@[pos + 3] == s@.subrange(pos as int, pos + 4)[3]);
            }
        }
        return None;
    }
    if c == 't' {
        if s.len() - pos >= 4 && s[pos + 1] == 'r' && s[pos + 2] == 'u' && s[pos + 3] == 'e' {
            proof {
                assert(s@.subrange(pos as int, pos + 4) =~= seq!['t', 'r', 'u', 'e']);
                assert forall|v: JsonV| #[trigger]
                    value_at(s@, pos as int, v) implies v == JsonV::Bool(true) && pos + 4 == pos
                    + ser_json(v).len() by {
                    lemma_value_head(s@, pos as int, v);
                }
            }
            return Some((Json::Bool(true), pos + 4));
        }
        proof {
            assert forall|v: JsonV| #[trigger] value_at(s@, pos as int, v) implies false by {
                lemma_value_head(s@, pos as int, v);
                assert(v == JsonV::Bool(true));
                assert(ser_json(v) =~= seq!['t', 'r', 'u', 'e']);
                assert(s@[pos + 1] == s@.subrange(pos as int, pos + 4)[1]);
                assert(s@[pos + 2] == s@.subrange(pos as int, pos + 4)[2]);
                assert(s@[pos + 3] == s@.subrange(pos as int, pos + 4)[3]);
            }
        }
        return None;
    }
    if c == 'f' {
        if s.len() - pos >= 5 && s[pos + 1] == 'a' && s[pos + 2] == 'l' && s[pos + 3] == 's'
            && s[pos + 4] == 'e' {
            proof {
                assert(s@.subrange(pos as int, pos + 5) =~= seq!['f', 'a', 'l', 's', 'e']);
                assert forall|v: JsonV| #[trigger]
                    value_at(s@, pos as int, v) implies v == JsonV::Bool(false) && pos + 5 == pos
                    + ser_json(v).len() by {
                    lemma_value_head(s@, pos as int, v);
                }
            }
            return Some((Json::Bool(false), pos + 5));
        }
        proof {
            assert forall|v: JsonV| #[trigger] value_at(s@, pos as int, v) implies false by {
                lemma_value_head(s@, pos as int, v);
                assert(v == JsonV::Bool(false));
                assert(ser_json(v) =~= seq!['f', 'a', 'l', 's', 'e']);
                assert(s@[pos + 1] == s@.subrange(pos as int, pos + 5)[1]);
                assert(s@[pos + 2] == s@.subrange(pos as int, pos + 5)[2]);
                assert(s@[pos + 3] == s@.subrange(pos as int, pos + 5)[3]);
                assert(s@[pos + 4] == s@.subrange(pos as int, pos + 5)[4]);
            }
        }
        return None;
    }
    if c == '"' {
        proof {
            assert forall|v: JsonV| #[trigger]
                value_at(s@, pos as int, v) implies v is Str && string_at(
                s@,
                pos as int,
                v->Str_0,
            ) by {
                lemma_value_head(s@, pos as int, v);
                let t = v->Str_0;
                let en = escape(t).len() as int;
                assert(ser_json(v) == seq!['"'] + escape(t) + seq!['"']);
                assert forall|q: int| 0 <= q < en implies s@.subrange(pos + 1, pos + 1 + en)[q]
                    == escape(t)[q] by {
                    assert(ser_json(v)[1 + q] == escape(t)[q]);
                    assert(s@.subrange(pos as int, pos + ser_json(v).len())[1 + q] == s@[pos + 1
                        + q]);
                }
                assert(s@.subrange(pos + 1, pos + 1 + en) =~= escape(t));
                assert(s@[pos + 1 + en] == s@.subrange(pos as int, pos + ser_json(v).len())[1
                    + en]);
            }
        }
        let parsed = parse_string(s, pos);
        match parsed {
            Some((content, end)) => {
                proof {
                    assert forall|v: JsonV| #[trigger]
                        value_at(s@, pos as int, v) implies json_view(Json::Str(content)) == v
                        && end == pos + ser_json(v).len() by {
                        assert(content@ == v->Str_0);
                        assert(ser_json(v) == seq!['"'] + escape(v->Str_0) + seq!['"']);
                    }
                }
                return Some((Json::Str(content), end));
            },
            None => {
                proof {
                    assert forall|v: JsonV| #[trigger]
                        value_at(s@, pos as int, v) implies false by {}
                }
                return None;
            },
        }
    }
    if c == '-' || ('0' <= c && c <= '9') {
        let mut j: usize = pos;
        while j < s.len() && is_num_char_exec(s[j])
            invariant
                pos <= j <= s@.len(),
                forall|k: int| pos <= k < j ==> is_num_char(#[trigger] s@[k]),
            decreases s@.len() - j,
        {
            j = j + 1;
        }
        proof {
            assert(is_num_char(s@[pos as int]));
            assert(j > pos);
            assert forall|v: JsonV| #[trigger]
                value_at(s@, pos as int, v) implies (v is Int || v is Num) && j == pos + ser_json(
                v,
            ).len() by {
                lemma_value_head(s@, pos as int, v);
                let l = ser_json(v).len() as int;
                if v is Int {
                    lemma_ser_int_props(v->Int_0);
                }
                assert forall|q: int| 0 <= q < l implies is_num_char(#[trigger] s@[pos + q]) by {
                    assert(s@[pos + q] == s@.subrange(pos as int, pos + l)[q]);
                    assert(is_num_char(ser_json(v)[q]));
                }
                if j < pos + l {
                    assert(is_num_char(s@[pos + (j - pos)]));
                    assert(false);
                }
                if j > pos + l {
                    assert(is_num_char(s@[pos + l]));
                    assert(!is_num_char(','));
                    assert(!is_num_char(']'));
                    assert(!is_num_char('}'));
                    assert(false);
                }
            }
        }
        let run = subvec(s, pos, j);
        proof {
            assert forall|v: JsonV| #[trigger]
                value_at(s@, pos as int, v) implies run@ == ser_json(v) by {
                assert(run@ =~= s@.subrange(pos as int, pos + ser_json(v).len()));
            }
        }
        match int_of_canonical(&run) {
            Some(n) => {
                proof {
                    assert(canonical_int(run@));
                    assert forall|v: JsonV| #[trigger]
                        value_at(s@, pos as int, v) implies json_view(Json::Int(n)) == v by {
                        if v is Num {
                            assert(!canonical_int(v->Num_0));
                        }
                        lemma_ser_int_inj(n as int, v->Int_0);
                    }
                }
                return Some((Json::Int(n), j));
            },
            None => {
                if has_digit_exec(&run) {
                    let txt = string_of_chars(&run);
                    proof {
                        assert forall|v: JsonV| #[trigger]
                            value_at(s@, pos as int, v) implies json_view(Json::Num(txt)) == v by {
                            if v is Int {
                                assert(run@ == ser_int(v->Int_0));
                                assert(canonical_int(run@));
                            }
                        }
                    }
                    return Some((Json::Num(txt), j));
                }
                proof {
                    assert forall|v: JsonV| #[trigger]
                        value_at(s@, pos as int, v) implies false by {
                        if v is Int {
                            lemma_ser_int_props(v->Int_0);
                        }
                    }
                }
                return None;
            },
        }
    }
    if c == '[' {
        let mut items: Vec<Json> = Vec::new();
        let mut cur: usize = pos + 1;
        if cur < s.len() && s[cur] == ']' {
            proof {
                assert(s@.subrange(pos as int, pos + 2) =~= seq!['['] + ser_arr(arr_view(items@))
                    + seq![']']);
                assert forall|v: JsonV| #[trigger]
                    value_at(s@, pos as int, v) implies json_view(Json::Arr(items))
                    == v && pos + 2 == pos + ser_json(v).len() by {
                    lemma_value_head(s@, pos as int, v);
                    let va = v->Arr_0;
                    if va.len() > 0 {
                        lemma_arr_step(s@, pos as int, v, 0, pos + 1);
                        lemma_value_head(s@, pos + 1, va[0]);
                        assert(false);
                    }
                    assert(va =~= Seq::<JsonV>::empty());
                    assert(ser_json(v) =~= seq!['[', ']']);
                }
            }
            return Some((Json::Arr(items), cur + 1));
        }
        proof {
            assert forall|v: JsonV| #[trigger]
                value_at(s@, pos as int, v) implies v is Arr && arr_view(items@)
                == v->Arr_0.take(0) && 0 < v->Arr_0.len() by {
                lemma_value_head(s@, pos as int, v);
                let va = v->Arr_0;
                if va.len() == 0 {
                    assert(ser_json(v) =~= seq!['[', ']']);
                    assert(s@[pos + 1] == s@.subrange(pos as int, pos + 2)[1]);
                }
                assert(arr_view(items@) =~= va.take(0));
            }
        }
        loop
            invariant
                pos < cur <= s@.len(),
                pos < s@.len(),
                s@[pos as int] == '[',
                items@.len() == 0 ==> cur == pos + 1,
                items@.len() > 0 ==> s@.subrange(pos as int, cur as int) =~= seq!['[']
                    + ser_arr(arr_view(items@)) + seq![','],
                forall|v: JsonV| #[trigger]
                    value_at(s@, pos as int, v) ==> v is Arr && arr_view(items@)
                        == v->Arr_0.take(items@.len() as int) && items@.len() < v->Arr_0.len(),
            decreases s@.len() - cur,
        {
            proof {
                crate::json::lemma_arr_view(items@);
                assert forall|v: JsonV| #[trigger]
                    value_at(s@, pos as int, v) implies value_at(
                    s@,
                    cur as int,
                    v->Arr_0[items@.len() as int],
                ) by {
                    lemma_arr_step(s@, pos as int, v, items@.len() as int, cur as int);
                }
            }
            let parsed = parse_value(s, cur);
            match parsed {
                None => {
                    proof {
                        assert forall|v: JsonV| #[trigger]
                            value_at(s@, pos as int, v) implies false by {}
                    }
                    return None;
                },
                Some((ve, nx)) => {
                    proof {
                        lemma_arr_view_push(items@, ve);
                        let av = arr_view(items@);
                        crate::json::lemma_arr_view(items@);
                        if items@.len() == 0 {
                            assert(ser_arr(av.push(json_view(ve))) == ser_json(json_view(ve)));
                            assert(s@.subrange(pos as int, nx as int) =~= seq!['['] + ser_arr(
                                av.push(json_view(ve)),
                            ));
                        } else {
                            assert(av.push(json_view(ve)).drop_last() =~= av);
                            assert(ser_arr(av.push(json_view(ve))) == ser_arr(av) + seq![',']
                                + ser_json(json_view(ve)));
                            assert(s@.subrange(pos as int, nx as int) =~= s@.subrange(
                                pos as int,
                                cur as int,
                            ) + s@.subrange(cur as int, nx as int));
                            assert(s@.subrange(pos as int, nx as int) =~= seq!['['] + ser_arr(
                                av.push(json_view(ve)),
                            ));
                        }
                    }
                    items.push(ve);
                    proof {
                        assert forall|v: JsonV| #[trigger]
                            value_at(s@, pos as int, v) implies arr_view(items@)
                            == v->Arr_0.take(items@.len() as int) && nx == cur + ser_json(
                            v->Arr_0[items@.len() - 1],
                        ).len() && json_view(ve) == v->Arr_0[items@.len() - 1] by {
                            let k = items@.len() - 1;
                            lemma_arr_step(s@, pos as int, v, k, cur as int);
                            crate::text::lemma_take_succ(v->Arr_0, k);
                            lemma_arr_view_push(items@.drop_last(), ve);
                            assert(items@.drop_last() =~= items@.subrange(0, k));
                        }
                    }
                    if nx < s.len() {
                        let sep = s[nx];
                        if sep == ',' {
                            proof {
                                assert(s@.subrange(pos as int, nx + 1) =~= s@.subrange(
                                    pos as int,
                                    nx as int,
                                ).push(','));
                                assert forall|v: JsonV| #[trigger]
                                    value_at(s@, pos as int, v) implies items@.len()
                                    < v->Arr_0.len() by {
                                    let k = items@.len() - 1;
                                    lemma_arr_step(s@, pos as int, v, k, cur as int);
                                    if k + 1 == v->Arr_0.len() {
                                        assert(s@[nx as int] == ']');
                                    }
                                }
                            }
                            cur = nx + 1;
                        } else if sep == ']' {
                            proof {
                                assert(s@.subrange(pos as int, nx + 1) =~= s@.subrange(
                                    pos as int,
                                    nx as int,
                                ).push(']'));
                                assert(s@.subrange(pos as int, nx + 1) =~= seq!['['] + ser_arr(
                                    arr_view(items@),
                                ) + seq![']']);
                                assert forall|v: JsonV| #[trigger]
                                    value_at(s@, pos as int, v) implies json_view(
                                    Json::Arr(items),
                                ) == v && nx + 1 == pos + ser_json(v).len() by {
                                    let k = items@.len() - 1;
                                    lemma_arr_step(s@, pos as int, v, k, cur as int);
                                    if k + 1 < v->Arr_0.len() {
                                        assert(s@[nx as int] == ',');
                                    }
                                    assert(v->Arr_0.take(k + 1) =~= v->Arr_0);
                                }
                            }
                            return Some((Json::Arr(items), nx + 1));
                        } else {
                            proof {
                                assert forall|v: JsonV| #[trigger]
                                    value_at(s@, pos as int, v) implies false by {
                                    let k = items@.len() - 1;
                                    lemma_arr_step(s@, pos as int, v, k, cur as int);
                                }
                            }
                            return None;
                        }
                    } else {
                        proof {
                            assert forall|v: JsonV| #[trigger]
                                value_at(s@, pos as int, v) implies false by {
                                let k = items@.len() - 1;
                                lemma_arr_step(s@, pos as int, v, k, cur as int);
                            }
                        }
                        return None;
                    }
                },
            }
        }
    }
    if c == '{' {
        let mut fields: Vec<JsonField> = Vec::new();
        let mut cur: usize = pos + 1;
        if cur < s.len() && s[cur] == '}' {
            proof {
                assert(s@.subrange(pos as int, pos + 2) =~= seq!['{'] + ser_obj(obj_view(fields@))
                    + seq!['}']);
                assert forall|v: JsonV| #[trigger]
                    value_at(s@, pos as int, v) implies json_view(Json::Obj(fields)) == v && pos + 2 == pos + ser_json(v).len() by {
                    lemma_value_head(s@, pos as int, v);
                    let fo = v->Obj_0;
                    if fo.len() > 0 {
                        lemma_obj_step(s@, pos as int, v, 0, pos + 1);
                        assert(s@[pos + 1] == '"');
                        assert(false);
                    }
                    assert(fo =~= Seq::<(Seq<char>, JsonV)>::empty());
                    assert(ser_json(v) =~= seq!['{', '}']);
                }
            }
            return Some((Json::Obj(fields), cur + 1));
        }
        proof {
            assert forall|v: JsonV| #[trigger]
                value_at(s@, pos as int, v) implies v is Obj && obj_view(fields@)
                == v->Obj_0.take(0) && 0 < v->Obj_0.len() by {
                lemma_value_head(s@, pos as int, v);
                let fo = v->Obj_0;
                if fo.len() == 0 {
                    assert(ser_json(v) =~= seq!['{', '}']);
                    assert(s@[pos + 1] == s@.subrange(pos as int, pos + 2)[1]);
                }
                assert(obj_view(fields@) =~= fo.take(0));
            }
        }
        loop
            invariant
                pos < cur <= s@.len(),
                pos < s@.len(),
                s@[pos as int] == '{',
                fields@.len() == 0 ==> cur == pos + 1,
                fields@.len() > 0 ==> s@.subrange(pos as int, cur as int) =~= seq!['{']
                    + ser_obj(obj_view(fields@)) + seq![','],
                forall|v: JsonV| #[trigger]
                    value_at(s@, pos as int, v) ==> v is Obj && obj_view(fields@)
                        == v->Obj_0.take(fields@.len() as int) && fields@.len() < v->Obj_0.len(),
            decreases s@.len() - cur,
        {
            proof {
                assert forall|v: JsonV| #[trigger]
                    value_at(s@, pos as int, v) implies string_at(
                    s@,
                    cur as int,
                    v->Obj_0[fields@.len() as int].0,
                ) by {
                    lemma_obj_step(s@, pos as int, v, fields@.len() as int, cur as int);
                }
            }
            let name_parsed = parse_string(s, cur);
            match name_parsed {
                None => {
                    proof {
                        assert forall|v: JsonV| #[trigger]
                            value_at(s@, pos as int, v) implies false by {}
                    }
                    return None;
                },
                Some((name, nend)) => {
                    proof {
                        assert forall|v: JsonV| #[trigger]
                            value_at(s@, pos as int, v) implies name@
                            == v->Obj_0[fields@.len() as int].0 && nend < s@.len() && s@[nend as int]
                            == ':' && value_at(
                            s@,
                            nend + 1,
                            v->Obj_0[fields@.len() as int].1,
                        ) by {
                            lemma_obj_step(s@, pos as int, v, fields@.len() as int, cur as int);
                        }
                    }
                    if nend >= s.len() || s[nend] != ':' {
                        proof {
                            assert forall|v: JsonV| #[trigger]
                                value_at(s@, pos as int, v) implies false by {}
                        }
                        return None;
                    }
                    let parsed = parse_value(s, nend + 1);
                    match parsed {
                        None => {
                            proof {
                                assert forall|v: JsonV| #[trigger]
                                    value_at(s@, pos as int, v) implies false by {}
                            }
                            return None;
                        },
                        Some((ve, nx)) => {
                            let f = JsonField { name, value: ve };
                            proof {
                                lemma_obj_view_push(fields@, f);
                                let ov = obj_view(fields@);
                                let fv = (f.name@, json_view(f.value));
                                assert(ser_field(fv) =~= seq!['"'] + escape(f.name@) + seq![
                                    '"',
                                    ':',
                                ] + ser_json(json_view(f.value)));
                                assert(s@.subrange(cur as int, nx as int) =~= s@.subrange(
                                    cur as int,
                                    nend as int,
                                ) + seq![':'] + s@.subrange(nend + 1, nx as int));
                                assert(s@.subrange(cur as int, nx as int) =~= ser_field(fv));
                                if fields@.len() == 0 {
                                    assert(ser_obj(ov.push(fv)) == ser_field(fv));
                                    assert(s@.subrange(pos as int, nx as int) =~= seq!['{']
                                        + ser_obj(ov.push(fv)));
                                } else {
                                    assert(ov.push(fv).drop_last() =~= ov);
                                    assert(ser_obj(ov.push(fv)) == ser_obj(ov) + seq![',']
                                        + ser_field(fv));
                                    assert(s@.subrange(pos as int, nx as int) =~= s@.subrange(
                                        pos as int,
                                        cur as int,
                                    ) + s@.subrange(cur as int, nx as int));
                                    assert(s@.subrange(pos as int, nx as int) =~= seq!['{']
                                        + ser_obj(ov.push(fv)));
                                }
                            }
                            fields.push(f);
                            proof {
                                assert forall|v: JsonV| #[trigger]
                                    value_at(s@, pos as int, v) implies obj_view(fields@)
                                    == v->Obj_0.take(fields@.len() as int) && nx == cur + ser_field(
                                    v->Obj_0[fields@.len() - 1],
                                ).len() by {
                                    let k = fields@.len() - 1;
                                    lemma_obj_step(s@, pos as int, v, k, cur as int);
                                    crate::text::lemma_take_succ(v->Obj_0, k);
                                    lemma_obj_view_push(fields@.drop_last(), f);
                                    assert(fields@.drop_last() =~= fields@.subrange(0, k));
                                    assert(json_view(ve) == v->Obj_0[k].1);
                                    assert(name@ == v->Obj_0[k].0);
                                    assert(nend == cur + escape(v->Obj_0[k].0).len() + 2);
                                    assert(nx == nend + 1 + ser_json(v->Obj_0[k].1).len());
                                }
                            }
                            if nx < s.len() {
                                let sep = s[nx];
                                if sep == ',' {
                                    proof {
                                        assert(s@.subrange(pos as int, nx + 1) =~= s@.subrange(
                                            pos as int,
                                            nx as int,
                                        ).push(','));
                                        assert forall|v: JsonV| #[trigger]
                                            value_at(s@, pos as int, v) implies fields@.len()
                                            < v->Obj_0.len() by {
                                            let k = fields@.len() - 1;
                                            lemma_obj_step(s@, pos as int, v, k, cur as int);
                                            if k + 1 == v->Obj_0.len() {
                                                assert(s@[nx as int] == '}');
                                            }
                                        }
                                    }
                                    cur = nx + 1;
                                } else if sep == '}' {
                                    proof {
                                        assert(s@.subrange(pos as int, nx + 1) =~= s@.subrange(
                                            pos as int,
                                            nx as int,
                                        ).push('}'));
                                        assert(s@.subrange(pos as int, nx + 1) =~= seq!['{']
                                            + ser_obj(obj_view(fields@)) + seq!['}']);
                                        assert forall|v: JsonV| #[trigger]
                                            value_at(s@, pos as int, v) implies json_view(
                                            Json::Obj(fields),
                                        ) == v && nx + 1 == pos + ser_json(v).len() by {
                                            let k = fields@.len() - 1;
                                            lemma_obj_step(s@, pos as int, v, k, cur as int);
                                            if k + 1 < v->Obj_0.len() {
                                                assert(s@[nx as int] == ',');
                                            }
                                            assert(v->Obj_0.take(k + 1) =~= v->Obj_0);
                                        }
                                    }
                                    return Some((Json::Obj(fields), nx + 1));
                                } else {
                                    proof {
                                        assert forall|v: JsonV| #[trigger]
                                            value_at(s@, pos as int, v) implies false by {
                                            let k = fields@.len() - 1;
                                            lemma_obj_step(s@, pos as int, v, k, cur as int);
                                        }
                                    }
                                    return None;
                                }
                            } else {
                                proof {
                                    assert forall|v: JsonV| #[trigger]
                                        value_at(s@, pos as int, v) implies false by {
                                        let k = fields@.len() - 1;
                                        lemma_obj_step(s@, pos as int, v, k, cur as int);
                                    }
                                }
                                return None;
                            }
                        },
                    }
                },
            }
        }
    }
    proof {
        assert forall|v: JsonV| #[trigger] value_at(s@, pos as int, v) implies false by {
            lemma_value_head(s@, pos as int, v);
        }
    }
    None
}

/// Parse a whole text as one JSON value. A value comes back exactly when
/// the text is some well-formed value's serialized form; the result is that
/// value, so serializing and parsing are inverse to one another.
pub fn parse_json(s: &String) -> (r: Option<Json>)
    ensures
        r is Some ==> ser_json(json_view(r->Some_0)) == s@,
        forall|v: JsonV| wf_jv(v) && s@ == #[trigger] ser_json(v) ==> r is Some && json_view(
            r->Some_0,
        ) == v,
{
    let cs = chars_of_str(s.as_str());
    proof {
        assert forall|v: JsonV| wf_jv(v) && s@ == #[trigger] ser_json(v) implies value_at(
            cs@,
            0,
            v,
        ) by {
            assert(cs@.subrange(0, ser_json(v).len() as int) =~= ser_json(v));
        }
    }
    let parsed = parse_value(&cs, 0);
    match parsed {
        Some((v, end)) => {
            if end == cs.len() {
                proof {
                    assert(cs@.subrange(0, cs@.len() as int) =~= cs@);
                }
                Some(v)
            } else {
                proof {
                    assert forall|v2: JsonV| wf_jv(v2) && s@ == #[trigger] ser_json(
                        v2,
                    ) implies false by {
                        assert(end == ser_json(v2).len());
                    }
                }
                None
            }
        },
        None => {
            proof {
                assert forall|v2: JsonV| wf_jv(v2) && s@ == #[trigger] ser_json(
                    v2,
                ) implies false by {}
            }
            None
        },
    }
}

} // verus!
