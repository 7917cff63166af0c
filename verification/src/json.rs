use vstd::prelude::*;

verus! {

/// One field of a JSON object: a name and a value.
#[derive(Debug)]
pub struct JsonField {
    pub name: String,
    pub value: Json,
}

/// A JSON value as the library stores it. Integral numbers are held as
/// `i64`; any other number is held as its exact decimal text (`Num`), so
/// every value survives a dump unchanged.
#[derive(Debug)]
pub enum Json {
    Null,
    Bool(bool),
    Int(i64),
    Num(String),
    Str(String),
    Arr(Vec<Json>),
    Obj(Vec<JsonField>),
}

/// The mathematical shape of a JSON value: what contracts and proofs speak of.
pub enum JsonV {
    Null,
    Bool(bool),
    Int(int),
    Num(Seq<char>),
    Str(Seq<char>),
    Arr(Seq<JsonV>),
    Obj(Seq<(Seq<char>, JsonV)>),
}

pub open spec fn json_view(j: Json) -> JsonV
    decreases j,
    via json_view_dec
{
    match j {
        Json::Null => JsonV::Null,
        Json::Bool(b) => JsonV::Bool(b),
        Json::Int(n) => JsonV::Int(n as int),
        Json::Num(s) => JsonV::Num(s@),
        Json::Str(s) => JsonV::Str(s@),
        Json::Arr(items) => JsonV::Arr(arr_view(items@)),
        Json::Obj(fields) => JsonV::Obj(obj_view(fields@)),
    }
}

pub open spec fn arr_view(items: Seq<Json>) -> Seq<JsonV>
    decreases items,
    via arr_view_dec
{
    if items.len() == 0 {
        Seq::empty()
    } else {
        arr_view(items.drop_last()).push(json_view(items.last()))
    }
}

pub open spec fn obj_view(fields: Seq<JsonField>) -> Seq<(Seq<char>, JsonV)>
    decreases fields,
    via obj_view_dec
{
    if fields.len() == 0 {
        Seq::empty()
    } else {
        obj_view(fields.drop_last()).push((fields.last().name@, json_view(fields.last().value)))
    }
}

#[via_fn]
proof fn json_view_dec(j: Json) {
    match j {
        Json::Arr(items) => {
            vstd::std_specs::vec::axiom_vec_decreases_to_view(items);
        },
        Json::Obj(fields) => {
            vstd::std_specs::vec::axiom_vec_decreases_to_view(fields);
        },
        _ => {},
    }
}

#[via_fn]
proof fn arr_view_dec(items: Seq<Json>) {
    if items.len() > 0 {
        vstd::seq::axiom_seq_index_decreases(items, items.len() - 1);
        vstd::seq::axiom_seq_subrange_decreases(items, 0, items.len() - 1);
        assert(items.drop_last() == items.subrange(0, items.len() - 1));
    }
}

#[via_fn]
proof fn obj_view_dec(fields: Seq<JsonField>) {
    if fields.len() > 0 {
        vstd::seq::axiom_seq_index_decreases(fields, fields.len() - 1);
        vstd::seq::axiom_seq_subrange_decreases(fields, 0, fields.len() - 1);
        assert(fields.drop_last() == fields.subrange(0, fields.len() - 1));
    }
}

pub proof fn lemma_arr_view(items: Seq<Json>)
    ensures
        arr_view(items).len() == items.len(),
        forall|i: int| 0 <= i < items.len() ==> arr_view(items)[i] == json_view(items[i]),
    decreases items.len(),
{
    if items.len() > 0 {
        lemma_arr_view(items.drop_last());
    }
}

pub proof fn lemma_obj_view(fields: Seq<JsonField>)
    ensures
        obj_view(fields).len() == fields.len(),
        forall|i: int|
            0 <= i < fields.len() ==> obj_view(fields)[i] == (
            fields[i].name@,
            json_view(fields[i].value),
            ),
    decreases fields.len(),
{
    if fields.len() > 0 {
        lemma_obj_view(fields.drop_last());
    }
}

pub proof fn lemma_arr_view_push(items: Seq<Json>, j: Json)
    ensures
        arr_view(items.push(j)) == arr_view(items).push(json_view(j)),
{
    assert(items.push(j).drop_last() =~= items);
    assert(items.push(j).last() == j);
}

pub proof fn lemma_obj_view_push(fields: Seq<JsonField>, f: JsonField)
    ensures
        obj_view(fields.push(f)) == obj_view(fields).push((f.name@, json_view(f.value))),
{
    assert(fields.push(f).drop_last() =~= fields);
    assert(fields.push(f).last() == f);
}

pub open spec fn hex_digit(d: int) -> char {
    seq!['0', '1', '2', '3', '4', '5', '6', '7', '8', '9', 'a', 'b', 'c', 'd', 'e', 'f'][d]
}

/// How a character appears inside a JSON string literal: quote and backslash
/// get two-character escapes, control characters a `\u00..` escape, and
/// everything else stands for itself.
pub open spec fn esc_char(c: char) -> Seq<char> {
    if c == '"' {
        seq!['\\', '"']
    } else if c == '\\' {
        seq!['\\', '\\']
    } else if (c as u32) < 32 {
        seq!['\\', 'u', '0', '0', hex_digit(c as u32 as int / 16), hex_digit(c as u32 as int % 16)]
    } else {
        seq![c]
    }
}

pub open spec fn escape(s: Seq<char>) -> Seq<char>
    decreases s.len(),
{
    if s.len() == 0 {
        Seq::empty()
    } else {
        escape(s.drop_last()) + esc_char(s.last())
    }
}

pub open spec fn dec_digit(d: int) -> char {
    seq!['0', '1', '2', '3', '4', '5', '6', '7', '8', '9'][d]
}

/// Decimal representation of a non-negative integer, most significant digit
/// first.
pub open spec fn dec_rep(n: int) -> Seq<char>
    decreases n,
    when n >= 0
    via dec_rep_dec
{
    if n < 10 {
        seq![dec_digit(n)]
    } else {
        dec_rep(n / 10).push(dec_digit(n % 10))
    }
}

#[via_fn]
proof fn dec_rep_dec(n: int) {
    if n >= 10 {
        assert(n / 10 < n) by (nonlinear_arith)
            requires
                n >= 10,
        ;
        assert(n / 10 >= 0) by (nonlinear_arith)
            requires
                n >= 10,
        ;
    }
}

pub open spec fn ser_int(n: int) -> Seq<char> {
    if n < 0 {
        seq!['-'] + dec_rep(-n)
    } else {
        dec_rep(n)
    }
}

/// The serialized text of a JSON value: compact, double-quoted strings with
/// quote and backslash escapes, fields and elements separated by single
/// commas.
pub open spec fn ser_json(v: JsonV) -> Seq<char>
    decreases v,
    via ser_json_dec
{
    match v {
        JsonV::Null => seq!['n', 'u', 'l', 'l'],
        JsonV::Bool(b) => if b {
            seq!['t', 'r', 'u', 'e']
        } else {
            seq!['f', 'a', 'l', 's', 'e']
        },
        JsonV::Int(n) => ser_int(n),
        JsonV::Num(t) => t,
        JsonV::Str(s) => seq!['"'] + escape(s) + seq!['"'],
        JsonV::Arr(items) => seq!['['] + ser_arr(items) + seq![']'],
        JsonV::Obj(fields) => seq!['{'] + ser_obj(fields) + seq!['}'],
    }
}

pub open spec fn ser_arr(items: Seq<JsonV>) -> Seq<char>
    decreases items,
    via ser_arr_dec
{
    if items.len() == 0 {
        Seq::empty()
    } else if items.len() == 1 {
        ser_json(items[0])
    } else {
        ser_arr(items.drop_last()) + seq![','] + ser_json(items.last())
    }
}

pub open spec fn ser_obj(fields: Seq<(Seq<char>, JsonV)>) -> Seq<char>
    decreases fields,
    via ser_obj_dec
{
    if fields.len() == 0 {
        Seq::empty()
    } else if fields.len() == 1 {
        ser_field(fields[0])
    } else {
        ser_obj(fields.drop_last()) + seq![','] + ser_field(fields.last())
    }
}

pub open spec fn ser_field(f: (Seq<char>, JsonV)) -> Seq<char>
    decreases f,
{
    seq!['"'] + escape(f.0) + seq!['"', ':'] + ser_json(f.1)
}

#[via_fn]
proof fn ser_json_dec(v: JsonV) {
}

#[via_fn]
proof fn ser_arr_dec(items: Seq<JsonV>) {
    if items.len() > 0 {
        vstd::seq::axiom_seq_index_decreases(items, 0);
        vstd::seq::axiom_seq_index_decreases(items, items.len() - 1);
        if items.len() > 1 {
            vstd::seq::axiom_seq_subrange_decreases(items, 0, items.len() - 1);
            assert(items.drop_last() == items.subrange(0, items.len() - 1));
        }
    }
}

#[via_fn]
proof fn ser_obj_dec(fields: Seq<(Seq<char>, JsonV)>) {
    if fields.len() > 0 {
        vstd::seq::axiom_seq_index_decreases(fields, 0);
        vstd::seq::axiom_seq_index_decreases(fields, fields.len() - 1);
        if fields.len() > 1 {
            vstd::seq::axiom_seq_subrange_decreases(fields, 0, fields.len() - 1);
            assert(fields.drop_last() == fields.subrange(0, fields.len() - 1));
        }
    }
}

proof fn lemma_reverse_push(s: Seq<char>, c: char)
    ensures
        s.push(c).reverse() =~= seq![c] + s.reverse(),
{
}

fn digit_char(d: u64) -> (r: char)
    requires
        d < 10,
    ensures
        r == dec_digit(d as int),
{
    if d == 0 {
        '0'
    } else if d == 1 {
        '1'
    } else if d == 2 {
        '2'
    } else if d == 3 {
        '3'
    } else if d == 4 {
        '4'
    } else if d == 5 {
        '5'
    } else if d == 6 {
        '6'
    } else if d == 7 {
        '7'
    } else if d == 8 {
        '8'
    } else {
        '9'
    }
}

fn hex_char(d: u32) -> (r: char)
    requires
        d < 16,
    ensures
        r == hex_digit(d as int),
{
    if d == 0 {
        '0'
    } else if d == 1 {
        '1'
    } else if d == 2 {
        '2'
    } else if d == 3 {
        '3'
    } else if d == 4 {
        '4'
    } else if d == 5 {
        '5'
    } else if d == 6 {
        '6'
    } else if d == 7 {
        '7'
    } else if d == 8 {
        '8'
    } else if d == 9 {
        '9'
    } else if d == 10 {
        'a'
    } else if d == 11 {
        'b'
    } else if d == 12 {
        'c'
    } else if d == 13 {
        'd'
    } else if d == 14 {
        'e'
    } else {
        proof {
            assert(d == 15);
        }
        'f'
    }
}

fn write_dec(m: u64, out: &mut Vec<char>)
    ensures
        final(out)@ == old(out)@ + dec_rep(m as int),
{
    let ghost base = out@;
    let mut digits: Vec<char> = Vec::new();
    let mut x: u64 = m;
    let mut finished = false;
    while !finished
        invariant
            x >= 0,
            !finished && digits@.len() == 0 ==> x == m,
            !finished && digits@.len() > 0 ==> dec_rep(m as int) =~= dec_rep(x as int)
                + digits@.reverse() && x > 0,
            finished ==> dec_rep(m as int) =~= digits@.reverse(),
        decreases x + (if finished { 0int } else { 1int }),
    {
        let d = x % 10;
        let c = digit_char(d);
        proof {
            lemma_reverse_push(digits@, c);
            if x >= 10 {
                assert(dec_rep(x as int) == dec_rep(x as int / 10).push(
                    dec_digit(x as int % 10),
                ));
                assert(x as int / 10 == (x / 10) as int);
            } else {
                assert(dec_rep(x as int) == seq![dec_digit(x as int)]);
            }
            assert(x / 10 < x || x < 10) by (nonlinear_arith);
        }
        digits.push(c);
        x = x / 10;
        if x == 0 {
            finished = true;
            proof {
                assert(dec_rep(m as int) =~= digits@.reverse());
            }
        } else {
            proof {
                assert(dec_rep(m as int) =~= dec_rep(x as int) + digits@.reverse());
            }
        }
    }
    let mut k: usize = 0;
    while k < digits.len()
        invariant
            0 <= k <= digits@.len(),
            out@ =~= base + digits@.reverse().take(k as int),
            dec_rep(m as int) =~= digits@.reverse(),
        decreases digits@.len() - k,
    {
        let c = digits[digits.len() - 1 - k];
        proof {
            crate::text::lemma_take_succ(digits@.reverse(), k as int);
            assert(digits@.reverse()[k as int] == digits@[digits@.len() - 1 - k]);
        }
        out.push(c);
        k = k + 1;
    }
    proof {
        assert(digits@.reverse().take(digits@.len() as int) =~= digits@.reverse());
        assert(out@ =~= base + dec_rep(m as int));
    }
}

fn write_int(n: i64, out: &mut Vec<char>)
    ensures
        final(out)@ == old(out)@ + ser_int(n as int),
{
    let ghost base = out@;
    if n >= 0 {
        write_dec(n as u64, out);
    } else {
        out.push('-');
        let m: u64 = if n < -9223372036854775807i64 {
            9223372036854775808u64
        } else {
            (-n) as u64
        };
        proof {
            assert(m as int == -(n as int));
        }
        write_dec(m, out);
        proof {
            assert(out@ =~= base + (seq!['-'] + dec_rep(-(n as int))));
        }
    }
}

fn write_string_body(s: &String, out: &mut Vec<char>)
    ensures
        final(out)@ == old(out)@ + escape(s@),
{
    let ghost base = out@;
    let cs = crate::chars::chars_of_str(s.as_str());
    let mut i: usize = 0;
    while i < cs.len()
        invariant
            0 <= i <= cs@.len(),
            cs@ == s@,
            out@ =~= base + escape(cs@.take(i as int)),
        decreases cs@.len() - i,
    {
        let c = cs[i];
        proof {
            crate::text::lemma_take_succ(cs@, i as int);
        }
        if c == '"' {
            out.push('\\');
            out.push('"');
        } else if c == '\\' {
            out.push('\\');
            out.push('\\');
        } else if (c as u32) < 32 {
            let code = c as u32;
            proof {
                assert(code < 32);
            }
            out.push('\\');
            out.push('u');
            out.push('0');
            out.push('0');
            out.push(hex_char(code / 16));
            out.push(hex_char(code % 16));
        } else {
            out.push(c);
        }
        proof {
            assert(out@ =~= base + (escape(cs@.take(i as int)) + esc_char(c)));
        }
        i = i + 1;
    }
    proof {
        assert(cs@.take(cs@.len() as int) =~= cs@);
    }
}

/// Append the serialized text of `j` to `out`.
pub fn write_json(j: &Json, out: &mut Vec<char>)
    ensures
        final(out)@ == old(out)@ + ser_json(json_view(*j)),
    decreases *j,
{
    let ghost base = out@;
    match j {
        Json::Null => {
            out.push('n');
            out.push('u');
            out.push('l');
            out.push('l');
            proof {
                assert(out@ =~= base + seq!['n', 'u', 'l', 'l']);
            }
        },
        Json::Bool(b) => {
            if *b {
                out.push('t');
                out.push('r');
                out.push('u');
                out.push('e');
                proof {
                    assert(out@ =~= base + seq!['t', 'r', 'u', 'e']);
                }
            } else {
                out.push('f');
                out.push('a');
                out.push('l');
                out.push('s');
                out.push('e');
                proof {
                    assert(out@ =~= base + seq!['f', 'a', 'l', 's', 'e']);
                }
            }
        },
        Json::Int(n) => {
            write_int(*n, out);
        },
        Json::Num(s) => {
            let cs = crate::chars::chars_of_str(s.as_str());
            let mut i: usize = 0;
            while i < cs.len()
                invariant
                    0 <= i <= cs@.len(),
                    cs@ == s@,
                    out@ =~= base + cs@.take(i as int),
                decreases cs@.len() - i,
            {
                let c = cs[i];
                proof {
                    crate::text::lemma_take_succ(cs@, i as int);
                }
                out.push(c);
                i = i + 1;
            }
            proof {
                assert(cs@.take(cs@.len() as int) =~= cs@);
            }
        },
        Json::Str(s) => {
            out.push('"');
            write_string_body(s, out);
            out.push('"');
            proof {
                assert(out@ =~= base + (seq!['"'] + escape(s@) + seq!['"']));
            }
        },
        Json::Arr(items) => {
            let ghost av = arr_view(items@);
            proof {
                lemma_arr_view(items@);
            }
            out.push('[');
            let mut i: usize = 0;
            while i < items.len()
                invariant
                    0 <= i <= items@.len(),
                    *j == Json::Arr(*items),
                    av == arr_view(items@),
                    av.len() == items@.len(),
                    forall|k: int| 0 <= k < items@.len() ==> av[k] == json_view(items@[k]),
                    out@ =~= base + seq!['['] + ser_arr(av.take(i as int)),
                decreases items@.len() - i,
            {
                if i > 0 {
                    out.push(',');
                }
                proof {
                    vstd::std_specs::vec::axiom_vec_index_decreases(*items, i as int);
                    assert(*j == Json::Arr(*items));
                    assert(decreases_to!(*j => j->Arr_0));
                    assert(decreases_to!(*j => items@[i as int]));
                }
                write_json(&items[i], out);
                proof {
                    crate::text::lemma_take_succ(av, i as int);
                    if i == 0 {
                        assert(ser_arr(av.take(1)) == ser_json(av[0]));
                        assert(out@ =~= base + seq!['['] + ser_arr(av.take(1)));
                    } else {
                        assert(ser_arr(av.take(i + 1)) == ser_arr(av.take(i as int)) + seq![',']
                            + ser_json(av[i as int]));
                        assert(out@ =~= base + seq!['['] + ser_arr(av.take(i + 1)));
                    }
                }
                i = i + 1;
            }
            out.push(']');
            proof {
                assert(av.take(av.len() as int) =~= av);
                assert(out@ =~= base + (seq!['['] + ser_arr(av) + seq![']']));
            }
        },
        Json::Obj(fields) => {
            let ghost ov = obj_view(fields@);
            proof {
                lemma_obj_view(fields@);
            }
            out.push('{');
            let mut i: usize = 0;
            while i < fields.len()
                invariant
                    0 <= i <= fields@.len(),
                    *j == Json::Obj(*fields),
                    ov == obj_view(fields@),
                    ov.len() == fields@.len(),
                    forall|k: int|
                        0 <= k < fields@.len() ==> ov[k] == (
                        fields@[k].name@,
                        json_view(fields@[k].value),
                        ),
                    out@ =~= base + seq!['{'] + ser_obj(ov.take(i as int)),
                decreases fields@.len() - i,
            {
                if i > 0 {
                    out.push(',');
                }
                let ghost mid = out@;
                out.push('"');
                write_string_body(&fields[i].name, out);
                out.push('"');
                out.push(':');
                proof {
                    vstd::std_specs::vec::axiom_vec_index_decreases(*fields, i as int);
                    assert(*j == Json::Obj(*fields));
                    assert(decreases_to!(*j => j->Obj_0));
                    assert(decreases_to!(*j => fields@[i as int].value));
                }
                write_json(&fields[i].value, out);
                proof {
                    crate::text::lemma_take_succ(ov, i as int);
                    assert(out@ =~= mid + ser_field(ov[i as int]));
                    if i == 0 {
                        assert(ser_obj(ov.take(1)) == ser_field(ov[0]));
                        assert(out@ =~= base + seq!['{'] + ser_obj(ov.take(1)));
                    } else {
                        assert(ser_obj(ov.take(i + 1)) == ser_obj(ov.take(i as int)) + seq![',']
                            + ser_field(ov[i as int]));
                        assert(out@ =~= base + seq!['{'] + ser_obj(ov.take(i + 1)));
                    }
                }
                i = i + 1;
            }
            out.push('}');
            proof {
                assert(ov.take(ov.len() as int) =~= ov);
                assert(out@ =~= base + (seq!['{'] + ser_obj(ov) + seq!['}']));
            }
        },
    }
}

} // verus!
