//! Rendering a parsed document of scalar fields and parsing the text again
//! gives back the same fields.
use vstd::prelude::*;
use crate::lexer::{
    Kind, Tok, cons, ident_char, ident_end, ident_token, lemma_ident_end, lemma_num_scan,
    lemma_string_end, lex_from, num_scan, number_token, punct_kind, string_end, string_token,
};
use crate::text::{alphabetic, white_space};
use crate::lexer::{append_all, loc, lemma_append_cons};
use crate::parser::{Fields, fields, value};
use crate::value::{
    Val, concat, field_line, field_lines, render_fields, render_val, all_digits, decimal, digit_char, digit_value, int_literal_value, nat_text, int_digits, int_of, is_digit, is_float_literal, keys_unique, lemma_decimal_nonneg, lemma_key_index_bounds,
    lemma_obj_set_unique, obj_set,
};

verus! {

/// Text that the scanner reads as one identifier.
pub open spec fn ident_text(k: Seq<char>) -> bool {
    &&& k.len() > 0
    &&& k[0] != '\n' && !white_space(k[0]) && !is_digit(k[0]) && alphabetic(k[0])
    &&& forall|j: int| 1 <= j < k.len() ==> ident_char(#[trigger] k[j])
}

/// Text without quotes and newlines.
pub open spec fn plain_text(t: Seq<char>) -> bool {
    forall|j: int| 0 <= j < t.len() ==> #[trigger] t[j] != '"' && t[j] != '\n'
}

/// Text that the scanner reads as one float literal.
pub open spec fn float_text(t: Seq<char>) -> bool {
    t.len() > 0 && is_digit(t[0]) && num_scan(t, 1, false) == Ok::<(int, bool), int>((t.len() as int, true))
}

pub open spec fn kind_ok(k: Kind) -> bool {
    match k {
        Kind::Ident(x) => ident_text(x),
        Kind::Str(t) => plain_text(t),
        Kind::Int(t) => t.len() > 0 && is_digit(t[0]),
        Kind::Float(t) => float_text(t),
        _ => true,
    }
}

/// Every token's text has the shape that the scanner gives it.
pub open spec fn toks_ok(ts: Seq<Tok>) -> bool {
    forall|i: int| 0 <= i < ts.len() ==> kind_ok(#[trigger] ts[i].kind)
}

pub open spec fn shifted(r: Result<(int, bool), int>, p: int) -> Result<(int, bool), int> {
    match r {
        Ok((j, f)) => Ok((j + p, f)),
        Err(k) => Err(k + p),
    }
}

/// A numeric scan inside `s` at `p` goes as the same scan of the text there.
pub proof fn lemma_num_scan_shift(s: Seq<char>, p: int, t: Seq<char>, q: int, seen: bool)
    requires
        0 <= p,
        p + t.len() <= s.len(),
        s.subrange(p, p + t.len()) == t,
        0 <= q <= t.len(),
        p + t.len() == s.len() || !(is_digit(s[p + t.len()]) || s[p + t.len()] == '.'),
    ensures
        num_scan(s, p + q, seen) == shifted(num_scan(t, q, seen), p),
    decreases t.len() - q,
{
    if q < t.len() {
        assert(s[p + q] == t[q]);
        if !(t[q] == '.' && seen) {
            lemma_num_scan_shift(s, p, t, q + 1, seen || t[q] == '.');
            assert(p + q + 1 == p + (q + 1));
        }
    }
}

pub proof fn lemma_cons_ok(t: Tok, ts: Seq<Tok>)
    requires
        kind_ok(t.kind),
        toks_ok(ts),
    ensures
        toks_ok(seq![t] + ts),
{
    assert forall|i: int| 0 <= i < (seq![t] + ts).len() implies kind_ok(#[trigger] (seq![t] + ts)[i].kind) by {
        if i > 0 {
            assert((seq![t] + ts)[i] == ts[i - 1]);
        }
    }
}

/// The scanner gives every token the shape that its kind asks for.
pub proof fn lemma_lex_ok(s: Seq<char>, i: int, line: int, col: int)
    requires
        0 <= i,
    ensures
        lex_from(s, i, line, col) matches Ok(ts) ==> toks_ok(ts),
    decreases s.len() - i,
{
    if i < s.len() {
        let c = s[i];
        if c == '\n' {
            lemma_lex_ok(s, i + 1, line + 1, 1);
            if let Ok(ts) = lex_from(s, i + 1, line + 1, 1) {
                lemma_cons_ok(Tok { kind: Kind::Newline, loc: crate::lexer::loc(col, line) }, ts);
            }
        } else if white_space(c) {
            lemma_lex_ok(s, i + 1, line, col + 1);
        } else if is_digit(c) {
            lemma_num_scan(s, i + 1, false);
            if let Ok((t, j)) = number_token(s, i, line, col) {
                lemma_lex_ok(s, j, line, col + (j - i));
                let x = s.subrange(i, j);
                if let Ok((jj, f)) = num_scan(s, i + 1, false) {
                    lemma_num_scan_shift(s, i, x, 1, false);
                    assert(x[0] == s[i]);
                }
                if let Ok(ts) = lex_from(s, j, line, col + (j - i)) {
                    lemma_cons_ok(t, ts);
                }
            }
        } else if alphabetic(c) {
            lemma_ident_end(s, i + 1);
            let (t, j) = ident_token(s, i, line, col);
            lemma_lex_ok(s, j, line, col + (j - i));
            let x = s.subrange(i, j);
            assert forall|q: int| 1 <= q < x.len() implies ident_char(#[trigger] x[q]) by {
                assert(x[q] == s[i + q]);
            }
            if let Ok(ts) = lex_from(s, j, line, col + (j - i)) {
                lemma_cons_ok(t, ts);
            }
        } else if c == '"' {
            lemma_string_end(s, i + 1);
            if let Ok((t, j)) = string_token(s, i, line, col) {
                lemma_lex_ok(s, j, line, col + (j - i));
                if let Ok(q) = string_end(s, i + 1) {
                    let x = s.subrange(i + 1, q);
                    assert forall|z: int| 0 <= z < x.len() implies #[trigger] x[z] != '"' && x[z] != '\n' by {
                        assert(x[z] == s[i + 1 + z]);
                    }
                }
                if let Ok(ts) = lex_from(s, j, line, col + (j - i)) {
                    lemma_cons_ok(t, ts);
                }
            }
        } else {
            lemma_lex_ok(s, i + 1, line, col + 1);
            if let Some(k) = punct_kind(c) {
                if let Ok(ts) = lex_from(s, i + 1, line, col + 1) {
                    lemma_cons_ok(Tok { kind: k, loc: crate::lexer::loc(col, line) }, ts);
                }
            }
        }
    }
}

/// A value as the parser leaves it, for those parts that rendering relies on.
pub open spec fn val_ok(v: Val) -> bool {
    match v {
        Val::Int(n) => n >= 0,
        Val::Float(t) => float_text(t) && is_float_literal(t),
        Val::Str(t) => plain_text(t),
        _ => true,
    }
}

/// Fields as the parser leaves them: unique names that scan as identifiers.
pub open spec fn fields_ok(fs: Fields) -> bool {
    &&& keys_unique(fs)
    &&& forall|i: int| 0 <= i < fs.len() ==> ident_text(#[trigger] fs[i].0) && val_ok(fs[i].1)
}

pub proof fn lemma_value_ok(ts: Seq<Tok>, i: int)
    requires
        toks_ok(ts),
        0 <= i,
    ensures
        value(ts, i) matches Ok((v, _)) ==> val_ok(v),
{
    if i < ts.len() {
        assert(kind_ok(ts[i].kind));
        if let Kind::Int(t) = ts[i].kind {
            assert(int_digits(t) == t);
            if let Some(n) = int_of(t) {
                lemma_decimal_nonneg(t);
            }
        }
    }
}

pub proof fn lemma_fields_ok(ts: Seq<Tok>, i: int, acc: Fields)
    requires
        toks_ok(ts),
        fields_ok(acc),
        0 <= i,
    ensures
        fields(ts, i, acc, true) matches Ok((fs, _)) ==> fields_ok(fs),
    decreases ts.len() - i,
{
    if i < ts.len() {
        assert(kind_ok(ts[i].kind));
        match ts[i].kind {
            Kind::Newline => {
                lemma_fields_ok(ts, i + 1, acc);
            },
            Kind::Ident(name) => {
                if i + 1 < ts.len() && ts[i + 1].kind is Equals {
                    lemma_value_ok(ts, i + 2);
                    if let Ok((v, j)) = value(ts, i + 2) {
                        if i < j <= ts.len() {
                            let next = obj_set(acc, name, v);
                            lemma_obj_set_unique(acc, name, v);
                            lemma_key_index_bounds(acc, name);
                            assert forall|x: int| 0 <= x < next.len() implies ident_text(#[trigger] next[x].0)
                                && val_ok(next[x].1) by {
                                if x < acc.len() {
                                    assert(ident_text(acc[x].0) && val_ok(acc[x].1));
                                }
                            }
                            lemma_fields_ok(ts, j, next);
                        }
                    }
                }
            },
            _ => {},
        }
    }
}

/// A value that renders as one token.
pub open spec fn scalar_val(v: Val) -> bool {
    v is Int || v is Float || v is Str
}

/// The kind of the token that a scalar value renders as.
pub open spec fn val_kind(v: Val) -> Kind {
    match v {
        Val::Int(n) => Kind::Int(nat_text(n as nat)),
        Val::Float(t) => Kind::Float(t),
        Val::Str(t) => Kind::Str(t),
        _ => Kind::Comma,
    }
}

pub open spec fn line_kinds(f: (Seq<char>, Val)) -> Seq<Kind> {
    seq![Kind::Ident(f.0), Kind::Equals, val_kind(f.1), Kind::Newline]
}

/// The token kinds of the lines of fields `m` onwards.
pub open spec fn kinds_from(fs: Fields, m: int) -> Seq<Kind>
    decreases fs.len() - m,
{
    if m < 0 || m >= fs.len() {
        Seq::empty()
    } else {
        line_kinds(fs[m]) + kinds_from(fs, m + 1)
    }
}

pub open spec fn kinds(ts: Seq<Tok>) -> Seq<Kind> {
    ts.map_values(|t: Tok| t.kind)
}

pub proof fn lemma_kinds_len(fs: Fields, a: int)
    requires
        0 <= a <= fs.len(),
    ensures
        kinds_from(fs, a).len() == 4 * (fs.len() - a),
    decreases fs.len() - a,
{
    if a < fs.len() {
        lemma_kinds_len(fs, a + 1);
    }
}

pub proof fn lemma_kinds_index(fs: Fields, a: int, m: int, c: int)
    requires
        0 <= a <= m < fs.len(),
        0 <= c < 4,
    ensures
        kinds_from(fs, a)[4 * (m - a) + c] == line_kinds(fs[m])[c],
    decreases m - a,
{
    lemma_kinds_len(fs, a + 1);
    if a < m {
        lemma_kinds_index(fs, a + 1, m, c);
        assert(4 * (m - a) + c == 4 + (4 * (m - (a + 1)) + c));
    }
}

pub proof fn lemma_digit_char(d: int)
    requires
        0 <= d < 10,
    ensures
        is_digit(digit_char(d)),
        digit_value(digit_char(d)) == d,
{
    let ds = seq!['0', '1', '2', '3', '4', '5', '6', '7', '8', '9'];
    assert(digit_char(d) == ds[d]);
    if d == 0 { assert(ds[0] == '0'); } else if d == 1 { assert(ds[1] == '1'); }
    else if d == 2 { assert(ds[2] == '2'); } else if d == 3 { assert(ds[3] == '3'); }
    else if d == 4 { assert(ds[4] == '4'); } else if d == 5 { assert(ds[5] == '5'); }
    else if d == 6 { assert(ds[6] == '6'); } else if d == 7 { assert(ds[7] == '7'); }
    else if d == 8 { assert(ds[8] == '8'); } else { assert(ds[9] == '9'); }
}

/// The decimal digits of `n` are digits and denote `n`.
pub proof fn lemma_nat_text(n: nat)
    ensures
        nat_text(n).len() > 0,
        all_digits(nat_text(n)),
        decimal(nat_text(n)) == n,
    decreases n,
{
    if n < 10 {
        lemma_digit_char(n as int);
        assert(nat_text(n).drop_last() =~= Seq::<char>::empty());
        assert(nat_text(n).last() == digit_char(n as int));
        assert(decimal(nat_text(n)) == 10 * decimal(Seq::<char>::empty()) + digit_value(digit_char(n as int)));
    } else {
        lemma_nat_text(n / 10);
        lemma_digit_char((n % 10) as int);
        let t = nat_text(n);
        assert(t.drop_last() =~= nat_text(n / 10));
        assert forall|i: int| 0 <= i < t.len() implies is_digit(#[trigger] t[i]) by {
            if i < t.len() - 1 {
                assert(t[i] == nat_text(n / 10)[i]);
            }
        }
        assert(t.last() == digit_char((n % 10) as int));
        assert(decimal(t) == 10 * decimal(nat_text(n / 10)) + digit_value(digit_char((n % 10) as int)));
        assert(10 * (n / 10) + n % 10 == n) by (nonlinear_arith);
    }
}

pub proof fn lemma_scalar_kind(v: Val)
    requires
        scalar_val(v),
        val_ok(v),
    ensures
        crate::parser::scalar(val_kind(v)) == Some(Ok::<Val, crate::parser::Fail>(v)),
{
    if let Val::Int(n) = v {
        lemma_nat_text(n as nat);
        let t = nat_text(n as nat);
        assert(is_digit(t[0]));
        assert(int_digits(t) == t);
        assert(int_literal_value(t) == n);
    }
}

/// Tokens whose kinds are those of the lines of `fs` parse back to `fs`.
pub proof fn lemma_parse_lines(ts: Seq<Tok>, fs: Fields, m: int)
    requires
        fields_ok(fs),
        forall|x: int| 0 <= x < fs.len() ==> scalar_val(#[trigger] fs[x].1),
        kinds(ts) == kinds_from(fs, 0),
        0 <= m <= fs.len(),
    ensures
        fields(ts, 4 * m, fs.subrange(0, m), true) == Ok::<(Fields, int), crate::parser::Fail>((fs, 4 * fs.len() as int)),
    decreases fs.len() - m,
{
    lemma_kinds_len(fs, 0);
    assert(ts.len() == kinds(ts).len());
    if m == fs.len() {
        assert(fs.subrange(0, m) =~= fs);
    } else {
        let (k, v) = fs[m];
        assert(ident_text(fs[m].0) && val_ok(fs[m].1) && scalar_val(fs[m].1));
        lemma_kinds_index(fs, 0, m, 0);
        lemma_kinds_index(fs, 0, m, 1);
        lemma_kinds_index(fs, 0, m, 2);
        lemma_kinds_index(fs, 0, m, 3);
        assert(ts[4 * m].kind == kinds(ts)[4 * m]);
        assert(ts[4 * m + 1].kind == kinds(ts)[4 * m + 1]);
        assert(ts[4 * m + 2].kind == kinds(ts)[4 * m + 2]);
        assert(ts[4 * m + 3].kind == kinds(ts)[4 * m + 3]);
        assert(ts[4 * m].kind == Kind::Ident(k));
        assert(ts[4 * m + 1].kind == Kind::Equals);
        assert(ts[4 * m + 2].kind == val_kind(v));
        assert(ts[4 * m + 3].kind == Kind::Newline);
        lemma_scalar_kind(v);
        assert(value(ts, 4 * m + 2) == Ok::<(Val, int), crate::parser::Fail>((v, 4 * m + 3)));
        let acc = fs.subrange(0, m);
        lemma_key_index_bounds(acc, k);
        if crate::value::key_index(acc, k) >= 0 {
            let x = crate::value::key_index(acc, k);
            assert(fs[x].0 == k);
        }
        assert(obj_set(acc, k, v) =~= fs.subrange(0, m + 1));
        lemma_parse_lines(ts, fs, m + 1);
        assert(4 * (m + 1) == 4 * m + 4);
        assert(fields(ts, 4 * m + 3, fs.subrange(0, m + 1), true) == fields(ts, 4 * m + 4, fs.subrange(0, m + 1), true));
    }
}

/// A numeric scan over digits alone reaches the end.
pub proof fn lemma_num_scan_digits(t: Seq<char>, q: int, seen: bool)
    requires
        all_digits(t),
        0 <= q <= t.len(),
    ensures
        num_scan(t, q, seen) == Ok::<(int, bool), int>((t.len() as int, seen)),
    decreases t.len() - q,
{
    if q < t.len() {
        assert(is_digit(t[q]));
        lemma_num_scan_digits(t, q + 1, seen);
    }
}

/// An identifier scan inside `s` runs to the end of the identifier text at `p`.
pub proof fn lemma_ident_run(s: Seq<char>, p: int, k: Seq<char>, q: int)
    requires
        0 <= p,
        p + k.len() < s.len(),
        s.subrange(p, p + k.len()) == k,
        ident_text(k),
        !ident_char(s[p + k.len()]),
        1 <= q <= k.len(),
    ensures
        ident_end(s, p + q) == p + k.len(),
    decreases k.len() - q,
{
    if q < k.len() {
        assert(s[p + q] == k[q]);
        lemma_ident_run(s, p, k, q + 1);
        assert(p + q + 1 == p + (q + 1));
    }
}

/// A string scan inside `s` runs to the quote after the plain text at `a`.
pub proof fn lemma_string_run(s: Seq<char>, a: int, t: Seq<char>, x: int)
    requires
        0 <= a,
        a + t.len() < s.len(),
        s.subrange(a, a + t.len()) == t,
        plain_text(t),
        s[a + t.len()] == '"',
        0 <= x <= t.len(),
    ensures
        string_end(s, a + x) == Ok::<int, crate::lexer::LexErrorKind>(a + t.len()),
    decreases t.len() - x,
{
    if x < t.len() {
        assert(s[a + x] == t[x]);
        lemma_string_run(s, a, t, x + 1);
        assert(a + x + 1 == a + (x + 1));
    }
}

/// The token of a rendered scalar value at `q`, followed by a newline.
pub proof fn lemma_lex_value(s: Seq<char>, q: int, v: Val, ln: int, col: int)
    requires
        0 <= q,
        scalar_val(v),
        val_ok(v),
        q + render_val(v).len() < s.len(),
        s.subrange(q, q + render_val(v).len()) == render_val(v),
        s[q + render_val(v).len()] == '\n',
    ensures
        render_val(v).len() > 0,
        lex_from(s, q, ln, col) == cons(
            Tok { kind: val_kind(v), loc: loc(col, ln) },
            lex_from(s, q + render_val(v).len(), ln, col + render_val(v).len()),
        ),
{
    let r = render_val(v);
    match v {
        Val::Int(n) => {
            lemma_nat_text(n as nat);
            assert(r == nat_text(n as nat));
            lemma_num_scan_digits(r, 1, false);
            lemma_num_scan_shift(s, q, r, 1, false);
            assert(s[q] == r[0]);
            assert(is_digit(r[0]));
            assert(s.subrange(q, q + r.len()) == r);
        },
        Val::Float(t) => {
            assert(r == t);
            lemma_num_scan_shift(s, q, r, 1, false);
            assert(s[q] == r[0]);
        },
        Val::Str(t) => {
            assert(r == seq!['"'] + t + seq!['"']);
            assert(s[q] == r[0]);
            assert(s.subrange(q + 1, q + 1 + t.len()) =~= t) by {
                assert forall|x: int| 0 <= x < t.len() implies s.subrange(q + 1, q + 1 + t.len())[x] == t[x] by {
                    assert(s[q + 1 + x] == r[1 + x]);
                }
            }
            assert(s[q + 1 + t.len()] == r[1 + t.len() as int]);
            lemma_string_run(s, q + 1, t, 0);
        },
        _ => {},
    }
}

pub open spec fn line_toks(k: Seq<char>, v: Val, ln: int) -> Seq<Tok> {
    seq![
        Tok { kind: Kind::Ident(k), loc: loc(1, ln) },
        Tok { kind: Kind::Equals, loc: loc(k.len() as int + 2, ln) },
        Tok { kind: val_kind(v), loc: loc(k.len() as int + 4, ln) },
        Tok { kind: Kind::Newline, loc: loc(k.len() as int + 4 + render_val(v).len(), ln) },
    ]
}

/// A rendered field line at `p` scans as its four tokens.
pub proof fn lemma_lex_line(s: Seq<char>, p: int, k: Seq<char>, v: Val, ln: int)
    requires
        0 <= p,
        ident_text(k),
        scalar_val(v),
        val_ok(v),
        p + field_line(k, render_val(v)).len() <= s.len(),
        s.subrange(p, p + field_line(k, render_val(v)).len()) == field_line(k, render_val(v)),
    ensures
        lex_from(s, p, ln, 1) == append_all(
            line_toks(k, v, ln),
            lex_from(s, p + field_line(k, render_val(v)).len(), ln + 1, 1),
        ),
{
    let r = render_val(v);
    let l = field_line(k, r);
    let e = p + l.len();
    let kl = k.len() as int;
    assert(l.len() == kl + 3 + r.len() + 1);
    assert forall|x: int| 0 <= x < l.len() implies s[p + x] == #[trigger] l[x] by {
        assert(s.subrange(p, e)[x] == s[p + x]);
    }
    assert(s[p] == l[0]);
    assert(l[0] == k[0]);
    assert(s[p + kl] == l[kl]);
    assert(l[kl] == ' ');
    assert(s[p + kl + 1] == l[kl + 1]);
    assert(l[kl + 1] == '=');
    assert(s[p + kl + 2] == l[kl + 2]);
    assert(l[kl + 2] == ' ');
    assert(s[e - 1] == l[l.len() - 1]);
    assert(l[l.len() - 1] == '\n');
    assert(s.subrange(p, p + kl) =~= k) by {
        assert forall|x: int| 0 <= x < kl implies s.subrange(p, p + kl)[x] == k[x] by {
            assert(s[p + x] == l[x]);
        }
    }
    let q = p + kl + 3;
    assert(s.subrange(q, q + r.len()) =~= r) by {
        assert forall|x: int| 0 <= x < r.len() implies s.subrange(q, q + r.len())[x] == r[x] by {
            assert(s[p + (kl + 3 + x)] == l[kl + 3 + x]);
        }
    }
    // the identifier
    if kl > 1 {
        lemma_ident_run(s, p, k, 1);
    }
    assert(ident_end(s, p + 1) == p + kl);
    let ghost rest1 = lex_from(s, p + kl, ln, 1 + kl);
    assert(lex_from(s, p, ln, 1) == cons(Tok { kind: Kind::Ident(k), loc: loc(1, ln) }, rest1));
    // the space, the `=`, the space
    assert(white_space(' '));
    assert(rest1 == lex_from(s, p + kl + 1, ln, kl + 2));
    assert(!white_space('=') && !alphabetic('=') && !is_digit('='));
    let ghost rest2 = lex_from(s, p + kl + 2, ln, kl + 3);
    assert(lex_from(s, p + kl + 1, ln, kl + 2) == cons(Tok { kind: Kind::Equals, loc: loc(kl + 2, ln) }, rest2));
    assert(rest2 == lex_from(s, q, ln, kl + 4));
    // the value and the newline
    lemma_lex_value(s, q, v, ln, kl + 4);
    let ghost rest3 = lex_from(s, q + r.len(), ln, kl + 4 + r.len());
    assert(q + r.len() == e - 1);
    assert(rest3 == cons(Tok { kind: Kind::Newline, loc: loc(kl + 4 + r.len(), ln) }, lex_from(s, e, ln + 1, 1)));
    let ts = line_toks(k, v, ln);
    let tail = lex_from(s, e, ln + 1, 1);
    lemma_append_cons(Seq::empty(), ts[0], cons(ts[1], cons(ts[2], cons(ts[3], tail))));
    lemma_append_cons(seq![ts[0]], ts[1], cons(ts[2], cons(ts[3], tail)));
    lemma_append_cons(seq![ts[0], ts[1]], ts[2], cons(ts[3], tail));
    lemma_append_cons(seq![ts[0], ts[1], ts[2]], ts[3], tail);
    assert(Seq::<Tok>::empty().push(ts[0]) =~= seq![ts[0]]);
    assert(seq![ts[0]].push(ts[1]) =~= seq![ts[0], ts[1]]);
    assert(seq![ts[0], ts[1]].push(ts[2]) =~= seq![ts[0], ts[1], ts[2]]);
    assert(seq![ts[0], ts[1], ts[2]].push(ts[3]) =~= ts);
    match cons(ts[0], cons(ts[1], cons(ts[2], cons(ts[3], tail)))) {
        Ok(x) => { assert(Seq::<Tok>::empty() + x =~= x); },
        Err(_) => {},
    }
}

/// The text of the first `m` pieces begins the text of all of them.
pub proof fn lemma_concat_prefix(ls: Seq<Seq<char>>, m: int)
    requires
        0 <= m <= ls.len(),
    ensures
        concat(ls.subrange(0, m)).len() <= concat(ls).len(),
        concat(ls).subrange(0, concat(ls.subrange(0, m)).len() as int) == concat(ls.subrange(0, m)),
    decreases ls.len() - m,
{
    if m == ls.len() {
        assert(ls.subrange(0, m) =~= ls);
        assert(concat(ls).subrange(0, concat(ls).len() as int) =~= concat(ls));
    } else {
        lemma_concat_prefix(ls, m + 1);
        let a = concat(ls.subrange(0, m));
        let b = concat(ls.subrange(0, m + 1));
        assert(ls.subrange(0, m + 1).drop_last() =~= ls.subrange(0, m));
        assert(b == a + ls[m]);
        assert(concat(ls).subrange(0, a.len() as int) =~= a) by {
            assert forall|x: int| 0 <= x < a.len() implies concat(ls).subrange(0, a.len() as int)[x] == a[x] by {
                assert(concat(ls).subrange(0, b.len() as int)[x] == b[x]);
            }
        }
    }
}

/// Piece `m` stands in the text of all pieces right after the first `m`.
pub proof fn lemma_concat_piece(ls: Seq<Seq<char>>, m: int)
    requires
        0 <= m < ls.len(),
    ensures
        concat(ls.subrange(0, m + 1)).len() == concat(ls.subrange(0, m)).len() + ls[m].len(),
        concat(ls.subrange(0, m + 1)).len() <= concat(ls).len(),
        concat(ls).subrange(
            concat(ls.subrange(0, m)).len() as int,
            concat(ls.subrange(0, m)).len() + ls[m].len() as int,
        ) == ls[m],
{
    lemma_concat_prefix(ls, m + 1);
    let a = concat(ls.subrange(0, m));
    let b = concat(ls.subrange(0, m + 1));
    assert(ls.subrange(0, m + 1).drop_last() =~= ls.subrange(0, m));
    assert(b == a + ls[m]);
    let t = concat(ls).subrange(a.len() as int, a.len() + ls[m].len() as int);
    assert(t =~= ls[m]) by {
        assert forall|x: int| 0 <= x < ls[m].len() implies t[x] == ls[m][x] by {
            assert(concat(ls).subrange(0, b.len() as int)[a.len() + x] == b[a.len() + x]);
        }
    }
}

/// The rendered lines of fields `m` onwards scan as their tokens.
pub proof fn lemma_lex_lines(fs: Fields, m: int)
    requires
        fields_ok(fs),
        forall|x: int| 0 <= x < fs.len() ==> scalar_val(#[trigger] fs[x].1),
        0 <= m <= fs.len(),
    ensures
        lex_from(render_fields(fs), concat(field_lines(fs).subrange(0, m)).len() as int, m + 1, 1) matches Ok(ts)
            && kinds(ts) == kinds_from(fs, m),
    decreases fs.len() - m,
{
    let ls = field_lines(fs);
    let s = render_fields(fs);
    let off = concat(ls.subrange(0, m)).len() as int;
    if m == fs.len() {
        assert(ls.subrange(0, m) =~= ls);
        assert(kinds(Seq::<Tok>::empty()) =~= Seq::<Kind>::empty());
    } else {
        lemma_concat_piece(ls, m);
        lemma_lex_lines(fs, m + 1);
        let (k, v) = fs[m];
        assert(ident_text(fs[m].0) && val_ok(fs[m].1) && scalar_val(fs[m].1));
        assert(ls[m] == field_line(k, render_val(v)));
        lemma_lex_line(s, off, k, v, m + 1);
        let ghost rest = lex_from(s, off + ls[m].len(), m + 2, 1);
        assert(off + ls[m].len() == concat(ls.subrange(0, m + 1)).len());
        if let Ok(ts) = rest {
            assert(kinds(line_toks(k, v, m + 1) + ts) =~= line_kinds(fs[m]) + kinds(ts));
        }
    }
}

/// Rendering the fields of a parsed document whose values are all integers,
/// floats or strings, and parsing that text again, gives back the same fields
/// in the same order.
pub proof fn lemma_round_trip(d: Seq<char>, fs: Fields)
    requires
        crate::parse_text(d) == Ok::<Fields, crate::parser::Fail>(fs),
        forall|x: int| 0 <= x < fs.len() ==> scalar_val(#[trigger] fs[x].1),
    ensures
        crate::parse_text(render_fields(fs)) == Ok::<Fields, crate::parser::Fail>(fs),
{
    lemma_lex_ok(d, 0, 1, 1);
    let ts0 = crate::lexer::lex(d)->Ok_0;
    lemma_fields_ok(ts0, 0, Seq::empty());
    lemma_lex_lines(fs, 0);
    assert(field_lines(fs).subrange(0, 0) =~= Seq::<Seq<char>>::empty());
    let ts = crate::lexer::lex(render_fields(fs))->Ok_0;
    lemma_parse_lines(ts, fs, 0);
    assert(fs.subrange(0, 0) =~= Seq::<(Seq<char>, Val)>::empty());
}

} // verus!
