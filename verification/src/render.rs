//! Rendering a document as compact JSON text: strings quoted and escaped,
//! arrays and objects without spaces, object pairs in stored order.

use vstd::prelude::*;

use crate::json::{views_of, pair_views_of, JsonV, JsonVal};

verus! {

/// The decimal digits of a natural number, most significant first.
pub open spec fn dec_nat(n: nat) -> Seq<char>
    decreases n,
{
    if n < 10 {
        seq![digit_char(n)]
    } else {
        dec_nat(n / 10) + seq![digit_char(n % 10)]
    }
}

/// The character for one decimal digit.
pub open spec fn digit_char(d: nat) -> char {
    if d == 0 {
        '0'
    } else if d == 1 {
        '1'
    } else if d == 2 {
        '2'
    } else if d == 3 {
        '3'
    } else if d == 4 {
        '4'
    } else if d == 5 {
        '5'
    } else if d == 6 {
        '6'
    } else if d == 7 {
        '7'
    } else if d == 8 {
        '8'
    } else {
        '9'
    }
}

/// The decimal text of an integer, with a leading minus sign when negative.
pub open spec fn dec_int(n: int) -> Seq<char> {
    if n < 0 {
        seq!['-'] + dec_nat((-n) as nat)
    } else {
        dec_nat(n as nat)
    }
}

/// The character for one hexadecimal digit.
pub open spec fn hex_char(d: nat) -> char {
    if d < 10 {
        digit_char(d)
    } else if d == 10 {
        'a'
    } else if d == 11 {
        'b'
    } else if d == 12 {
        'c'
    } else if d == 13 {
        'd'
    } else if d == 14 {
        'e'
    } else {
        'f'
    }
}

/// How one character of a JSON string is written: quotes and backslashes
/// get a backslash, control characters their short escape or a `\u00..`
/// escape, and every other character stands as itself.
pub open spec fn escape_char(c: char) -> Seq<char> {
    if c == '"' {
        seq!['\\', '"']
    } else if c == '\\' {
        seq!['\\', '\\']
    } else if c == '\u{8}' {
        seq!['\\', 'b']
    } else if c == '\u{c}' {
        seq!['\\', 'f']
    } else if c == '\n' {
        seq!['\\', 'n']
    } else if c == '\r' {
        seq!['\\', 'r']
    } else if c == '\t' {
        seq!['\\', 't']
    } else if (c as u32) < 32 {
        seq!['\\', 'u', '0', '0', hex_char(((c as u32) / 16) as nat), hex_char(
            ((c as u32) % 16) as nat,
        )]
    } else {
        seq![c]
    }
}

/// A whole string escaped, character by character.
pub open spec fn escape_str(s: Seq<char>) -> Seq<char>
    decreases s.len(),
{
    if s.len() == 0 {
        Seq::empty()
    } else {
        escape_str(s.drop_last()) + escape_char(s.last())
    }
}

/// The compact JSON text of a document.
pub open spec fn render_v(v: JsonV) -> Seq<char>
    decreases v, 1int,
{
    match v {
        JsonV::Null => "null"@,
        JsonV::Bool(b) => if b {
            "true"@
        } else {
            "false"@
        },
        JsonV::Int(n) => dec_int(n),
        JsonV::Num(s) => s,
        JsonV::Str(s) => seq!['"'] + escape_str(s) + seq!['"'],
        JsonV::Arr(s) => seq!['['] + render_items(s) + seq![']'],
        JsonV::Obj(ps) => seq!['{'] + render_pairs(ps) + seq!['}'],
    }
}

/// The elements of an array rendered and joined with commas.
pub open spec fn render_items(s: Seq<JsonV>) -> Seq<char>
    decreases s, 0int,
{
    if s.len() == 0 {
        Seq::empty()
    } else {
        render_items(s.drop_last()) + (if s.len() > 1 {
            seq![',']
        } else {
            Seq::empty()
        }) + render_v(s.last())
    }
}

/// The pairs of an object rendered as `"key":value` and joined with commas.
pub open spec fn render_pairs(s: Seq<(Seq<char>, JsonV)>) -> Seq<char>
    decreases s, 0int,
{
    if s.len() == 0 {
        Seq::empty()
    } else {
        render_pairs(s.drop_last()) + (if s.len() > 1 {
            seq![',']
        } else {
            Seq::empty()
        }) + seq!['"'] + escape_str(s.last().0) + seq!['"', ':'] + render_v(s.last().1)
    }
}

/// Appends the decimal digits of `n` to `out`.
pub(crate) fn push_digits(n: u64, out: &mut String)
    ensures
        final(out)@ == old(out)@ + dec_nat(n as nat),
    decreases n,
{
    if n >= 10 {
        push_digits(n / 10, out);
    }
    let d = n % 10;
    let piece = digit_str(d);
    out.append(piece);
    proof {
        if n < 10 {
            assert(dec_nat(n as nat) == seq![digit_char(n as nat)]);
        }
        assert(final(out)@ == old(out)@ + dec_nat(n as nat));
    }
}

/// The one-character text of a decimal digit.
fn digit_str(d: u64) -> (r: &'static str)
    requires
        d < 10,
    ensures
        r@ == seq![digit_char(d as nat)],
{
    if d == 0 {
        proof {
            reveal_strlit("0");
        }
        "0"
    } else if d == 1 {
        proof {
            reveal_strlit("1");
        }
        "1"
    } else if d == 2 {
        proof {
            reveal_strlit("2");
        }
        "2"
    } else if d == 3 {
        proof {
            reveal_strlit("3");
        }
        "3"
    } else if d == 4 {
        proof {
            reveal_strlit("4");
        }
        "4"
    } else if d == 5 {
        proof {
            reveal_strlit("5");
        }
        "5"
    } else if d == 6 {
        proof {
            reveal_strlit("6");
        }
        "6"
    } else if d == 7 {
        proof {
            reveal_strlit("7");
        }
        "7"
    } else if d == 8 {
        proof {
            reveal_strlit("8");
        }
        "8"
    } else {
        proof {
            reveal_strlit("9");
        }
        "9"
    }
}

/// The one-character text of a hexadecimal digit.
fn hex_str(d: u32) -> (r: &'static str)
    requires
        d < 16,
    ensures
        r@ == seq![hex_char(d as nat)],
{
    if d < 10 {
        digit_str(d as u64)
    } else if d == 10 {
        proof {
            reveal_strlit("a");
        }
        "a"
    } else if d == 11 {
        proof {
            reveal_strlit("b");
        }
        "b"
    } else if d == 12 {
        proof {
            reveal_strlit("c");
        }
        "c"
    } else if d == 13 {
        proof {
            reveal_strlit("d");
        }
        "d"
    } else if d == 14 {
        proof {
            reveal_strlit("e");
        }
        "e"
    } else {
        proof {
            reveal_strlit("f");
        }
        "f"
    }
}

/// Appends the decimal text of a signed integer to `out`.
fn push_int(n: i64, out: &mut String)
    ensures
        final(out)@ == old(out)@ + dec_int(n as int),
{
    if n >= 0 {
        push_digits(n as u64, out);
    } else {
        proof {
            reveal_strlit("-");
        }
        out.append("-");
        let mag: u64 = if n == i64::MIN {
            9223372036854775808u64
        } else {
            (-n) as u64
        };
        push_digits(mag, out);
        proof {
            assert(old(out)@ + "-"@ + dec_nat(mag as nat) == old(out)@ + (seq!['-'] + dec_nat(
                (-(n as int)) as nat,
            ))) by {
                assert("-"@ =~= seq!['-']);
                assert(mag as nat == (-(n as int)) as nat);
                assert(old(out)@ + "-"@ + dec_nat(mag as nat) =~= old(out)@ + (seq!['-']
                    + dec_nat(mag as nat)));
            }
        }
    }
}

/// Appends one string character in escaped form to `out`.
fn push_escaped_char(s: &str, i: usize, out: &mut String)
    requires
        i < s@.len(),
        s@.len() <= usize::MAX,
    ensures
        final(out)@ == old(out)@ + escape_char(s@[i as int]),
{
    let c = s.get_char(i);
    if c == '"' {
        proof {
            reveal_strlit("\\\"");
            assert("\\\""@ =~= escape_char('"'));
        }
        out.append("\\\"");
    } else if c == '\\' {
        proof {
            reveal_strlit("\\\\");
            assert("\\\\"@ =~= escape_char('\\'));
        }
        out.append("\\\\");
    } else if c == '\u{8}' {
        proof {
            reveal_strlit("\\b");
            assert("\\b"@ =~= escape_char('\u{8}'));
        }
        out.append("\\b");
    } else if c == '\u{c}' {
        proof {
            reveal_strlit("\\f");
            assert("\\f"@ =~= escape_char('\u{c}'));
        }
        out.append("\\f");
    } else if c == '\n' {
        proof {
            reveal_strlit("\\n");
            assert("\\n"@ =~= escape_char('\n'));
        }
        out.append("\\n");
    } else if c == '\r' {
        proof {
            reveal_strlit("\\r");
            assert("\\r"@ =~= escape_char('\r'));
        }
        out.append("\\r");
    } else if c == '\t' {
        proof {
            reveal_strlit("\\t");
            assert("\\t"@ =~= escape_char('\t'));
        }
        out.append("\\t");
    } else if (c as u32) < 32 {
        proof {
            reveal_strlit("\\u00");
        }
        out.append("\\u00");
        let code = c as u32;
        out.append(hex_str(code / 16));
        out.append(hex_str(code % 16));
        proof {
            assert(final(out)@ =~= old(out)@ + escape_char(c));
        }
    } else {
        let piece = s.substring_char(i, i + 1);
        proof {
            assert(piece@ =~= seq![c]);
            assert(escape_char(c) == seq![c]);
        }
        out.append(piece);
    }
}

/// Appends a whole string in escaped form to `out`.
fn push_escaped(s: &str, out: &mut String)
    ensures
        final(out)@ == old(out)@ + escape_str(s@),
{
    let n = s.unicode_len();
    let ghost base = out@;
    proof {
        assert(s@.take(0) =~= Seq::<char>::empty());
        assert(escape_str(s@.take(0)) + Seq::<char>::empty() =~= escape_str(s@.take(0)));
        assert(base + escape_str(s@.take(0)) =~= base);
    }
    for i in 0..n
        invariant
            n == s@.len(),
            out@ == base + escape_str(s@.take(i as int)),
    {
        push_escaped_char(s, i, out);
        proof {
            assert(s@.take(i + 1).drop_last() =~= s@.take(i as int));
            assert(s@.take(i + 1).last() == s@[i as int]);
            assert(base + escape_str(s@.take(i as int)) + escape_char(s@[i as int]) =~= base
                + escape_str(s@.take(i + 1)));
        }
    }
    proof {
        assert(s@.take(n as int) =~= s@);
    }
}

/// Appends the compact JSON text of a document to `out`.
#[verifier::loop_isolation(false)]
#[verifier::rlimit(60)]
pub fn write_json(v: &JsonVal, out: &mut String)
    ensures
        final(out)@ == old(out)@ + render_v(v@),
    decreases v,
{
    let ghost base = out@;
    match v {
        JsonVal::Null => {
            proof {
                reveal_strlit("null");
            }
            out.append("null");
        },
        JsonVal::Bool(b) => {
            if *b {
                proof {
                    reveal_strlit("true");
                }
                out.append("true");
            } else {
                proof {
                    reveal_strlit("false");
                }
                out.append("false");
            }
        },
        JsonVal::Int(n) => {
            push_int(*n, out);
        },
        JsonVal::Num(s) => {
            out.append(s.as_str());
        },
        JsonVal::Str(s) => {
            proof {
                reveal_strlit("\"");
            }
            out.append("\"");
            push_escaped(s.as_str(), out);
            out.append("\"");
            proof {
                assert("\""@ =~= seq!['"']);
                assert(base + "\""@ + escape_str(s@) + "\""@ =~= base + (seq!['"'] + escape_str(
                    s@,
                ) + seq!['"']));
            }
        },
        JsonVal::Arr(xs) => {
            let ghost vs = views_of(xs@);
            proof {
                reveal_strlit("[");
                reveal_strlit("]");
                reveal_strlit(",");
                crate::json::lemma_views_of_len(xs@);
            }
            out.append("[");
            let n = xs.len();
            proof {
                assert(vs.take(0) =~= Seq::<JsonV>::empty());
                assert(base + "["@ + render_items(vs.take(0)) =~= base + "["@);
            }
            for i in 0..n
                invariant
                    out@ == base + "["@ + render_items(vs.take(i as int)),
            {
                if i > 0 {
                    out.append(",");
                }
                proof {
                    crate::json::lemma_views_of_index(xs@, i as int);
                }
                write_json(&xs[i], out);
                proof {
                    assert(vs.take(i + 1).drop_last() =~= vs.take(i as int));
                    assert(vs.take(i + 1).last() == vs[i as int]);
                    if i > 0 {
                        assert(base + "["@ + render_items(vs.take(i as int)) + ","@ + render_v(
                            vs[i as int],
                        ) =~= base + "["@ + render_items(vs.take(i + 1)));
                    } else {
                        assert(base + "["@ + render_items(vs.take(i as int)) + render_v(
                            vs[i as int],
                        ) =~= base + "["@ + render_items(vs.take(i + 1)));
                    }
                }
            }
            out.append("]");
            proof {
                assert(vs.take(n as int) =~= vs);
                assert(base + "["@ + render_items(vs) + "]"@ =~= base + (seq!['['] + render_items(
                    vs,
                ) + seq![']']));
            }
        },
        JsonVal::Obj(ps) => {
            let ghost vs = pair_views_of(ps@);
            proof {
                reveal_strlit("{");
                reveal_strlit("}");
                reveal_strlit(",");
                reveal_strlit("\"");
                reveal_strlit("\":");
                crate::json::lemma_pair_views_of_len(ps@);
            }
            out.append("{");
            let n = ps.len();
            proof {
                assert(vs.take(0) =~= Seq::<(Seq<char>, JsonV)>::empty());
                assert(base + "{"@ + render_pairs(vs.take(0)) =~= base + "{"@);
            }
            for i in 0..n
                invariant
                    out@ == base + "{"@ + render_pairs(vs.take(i as int)),
            {
                if i > 0 {
                    out.append(",");
                }
                out.append("\"");
                proof {
                    crate::json::lemma_pair_views_of_index(ps@, i as int);
                }
                push_escaped(ps[i].0.as_str(), out);
                out.append("\":");
                write_json(&ps[i].1, out);
                proof {
                    assert(vs.take(i + 1).drop_last() =~= vs.take(i as int));
                    assert(vs.take(i + 1).last() == vs[i as int]);
                    assert("\":"@ =~= seq!['"', ':']);
                    assert("\""@ =~= seq!['"']);
                    if i > 0 {
                        assert(base + "{"@ + render_pairs(vs.take(i as int)) + ","@ + "\""@
                            + escape_str(vs[i as int].0) + "\":"@ + render_v(vs[i as int].1) =~=
                            base + "{"@ + render_pairs(vs.take(i + 1)));
                    } else {
                        assert(base + "{"@ + render_pairs(vs.take(i as int)) + "\""@ + escape_str(
                            vs[i as int].0,
                        ) + "\":"@ + render_v(vs[i as int].1) =~= base + "{"@ + render_pairs(
                            vs.take(i + 1),
                        ));
                    }
                }
            }
            out.append("}");
            proof {
                assert(vs.take(n as int) =~= vs);
                assert(base + "{"@ + render_pairs(vs) + "}"@ =~= base + (seq!['{'] + render_pairs(
                    vs,
                ) + seq!['}']));
            }
        },
    }
}

/// The compact JSON text of a document.
pub fn render_json(v: &JsonVal) -> (r: String)
    ensures
        r@ == render_v(v@),
{
    let mut out = String::new();
    write_json(v, &mut out);
    proof {
        assert(Seq::<char>::empty() + render_v(v@) =~= render_v(v@));
    }
    out
}

} // verus!
