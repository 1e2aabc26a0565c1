//! The two serializers: JSON text with caller-chosen layout, and the
//! recursive protocol reply shape.

use vstd::prelude::*;
use crate::value::{JsonValue, Json};
use crate::text::{push_char, push_str, chars_of};

verus! {

/// The layout of JSON text: the string for one level of indentation, the one
/// after each `:` of an object, and the one that starts each line.
pub struct Layout {
    pub indent: String,
    pub space: String,
    pub newline: String,
}

/// `s` repeated `n` times.
pub open spec fn repeat(s: Seq<char>, n: nat) -> Seq<char>
    decreases n,
{
    if n == 0 {
        Seq::empty()
    } else {
        repeat(s, (n - 1) as nat) + s
    }
}

pub open spec fn digit_char(d: int) -> char {
    if d == 0 { '0' } else if d == 1 { '1' } else if d == 2 { '2' } else if d == 3 { '3' } else if d == 4 { '4' }
    else if d == 5 { '5' } else if d == 6 { '6' } else if d == 7 { '7' } else if d == 8 { '8' } else { '9' }
}

pub open spec fn hex_char(d: int) -> char {
    if d < 10 { digit_char(d) } else if d == 10 { 'a' } else if d == 11 { 'b' } else if d == 12 { 'c' }
    else if d == 13 { 'd' } else if d == 14 { 'e' } else { 'f' }
}

/// The decimal digits of a natural number.
pub open spec fn nat_text(n: nat) -> Seq<char>
    decreases n,
{
    if n < 10 {
        seq![digit_char(n as int)]
    } else {
        nat_text(n / 10).push(digit_char((n % 10) as int))
    }
}

/// The decimal text of an integer.
pub open spec fn int_text(i: int) -> Seq<char> {
    if i < 0 {
        seq!['-'] + nat_text((-i) as nat)
    } else {
        nat_text(i as nat)
    }
}

/// How one character is written inside a JSON string.
pub open spec fn escape_char(c: char) -> Seq<char> {
    if c == '"' {
        seq!['\\', '"']
    } else if c == '\\' {
        seq!['\\', '\\']
    } else if c == '\n' {
        seq!['\\', 'n']
    } else if c == '\r' {
        seq!['\\', 'r']
    } else if c == '\t' {
        seq!['\\', 't']
    } else if c == '\u{8}' {
        seq!['\\', 'b']
    } else if c == '\u{c}' {
        seq!['\\', 'f']
    } else if (c as u32) < 0x20 {
        seq!['\\', 'u', '0', '0', hex_char((c as u32) as int / 16), hex_char((c as u32) as int % 16)]
    } else {
        seq![c]
    }
}

/// A string written as a JSON string literal.
pub open spec fn quote(s: Seq<char>) -> Seq<char> {
    seq!['"'] + Seq::new(s.len(), |i: int| escape_char(s[i])).flatten_alt() + seq!['"']
}

/// What starts the item at position `i` of an array or object at depth `level`.
pub open spec fn item_lead(i: int, nl: Seq<char>, ind: Seq<char>, level: nat) -> Seq<char> {
    (if i > 0 {
        seq![',']
    } else {
        Seq::empty()
    }) + nl + repeat(ind, level)
}

/// The JSON text of a node at depth `level`.
pub open spec fn render(v: Json, ind: Seq<char>, sp: Seq<char>, nl: Seq<char>, level: nat) -> Seq<char>
    decreases v, 1nat, 0nat,
{
    match v {
        Json::Null => "null"@,
        Json::Bool(b) => if b {
            "true"@
        } else {
            "false"@
        },
        Json::Int(i) => int_text(i),
        Json::Double(d) => d,
        Json::Str(s) => quote(s),
        Json::Arr(a) => if a.len() == 0 {
            "[]"@
        } else {
            seq!['['] + items_text(v, a.len(), ind, sp, nl, level) + nl + repeat(ind, level) + seq![']']
        },
        Json::Obj(o) => if o.len() == 0 {
            "{}"@
        } else {
            seq!['{'] + items_text(v, o.len(), ind, sp, nl, level) + nl + repeat(ind, level) + seq!['}']
        },
    }
}

/// The text of the first `n` items of the array or object `v` at depth `level`.
pub open spec fn items_text(v: Json, n: nat, ind: Seq<char>, sp: Seq<char>, nl: Seq<char>, level: nat) -> Seq<char>
    decreases v, 0nat, n,
{
    if n == 0 {
        Seq::empty()
    } else {
        let i = n - 1;
        let item = match v {
            Json::Arr(a) => if i < a.len() {
                render(a[i], ind, sp, nl, level + 1)
            } else {
                Seq::empty()
            },
            Json::Obj(o) => if i < o.len() {
                quote(o[i].0) + seq![':'] + sp + render(o[i].1, ind, sp, nl, level + 1)
            } else {
                Seq::empty()
            },
            _ => Seq::empty(),
        };
        items_text(v, (n - 1) as nat, ind, sp, nl, level) + item_lead(i, nl, ind, level + 1) + item
    }
}

/// The compact JSON text of a node: no whitespace at all.
pub open spec fn compact(v: Json) -> Seq<char> {
    render(v, Seq::empty(), Seq::empty(), Seq::empty(), 0)
}

fn digit_of(d: u64) -> (c: char)
    requires
        d < 16,
    ensures
        c == hex_char(d as int),
{
    if d == 0 { '0' } else if d == 1 { '1' } else if d == 2 { '2' } else if d == 3 { '3' } else if d == 4 { '4' }
    else if d == 5 { '5' } else if d == 6 { '6' } else if d == 7 { '7' } else if d == 8 { '8' } else if d == 9 { '9' }
    else if d == 10 { 'a' } else if d == 11 { 'b' } else if d == 12 { 'c' } else if d == 13 { 'd' } else if d == 14 { 'e' }
    else { 'f' }
}

fn write_nat(n: u64, out: &mut String)
    ensures
        final(out)@ == old(out)@ + nat_text(n as nat),
    decreases n,
{
    if n >= 10 {
        write_nat(n / 10, out);
    }
    push_char(out, digit_of(n % 10));
    assert(digit_char((n % 10) as int) == hex_char((n % 10) as int));
    if n >= 10 {
        assert(old(out)@ + nat_text(n as nat) =~= old(out)@ + nat_text((n / 10) as nat) + seq![digit_char((n % 10) as int)]);
    } else {
        assert(old(out)@ + nat_text(n as nat) =~= old(out)@.push(digit_char(n as int)));
    }
}

/// Writes the decimal text of an integer.
pub fn write_int(i: i64, out: &mut String)
    ensures
        final(out)@ == old(out)@ + int_text(i as int),
{
    if i < 0 {
        push_char(out, '-');
        let m: u64 = ((-(i + 1)) as u64) + 1;
        write_nat(m, out);
        assert(old(out)@ + int_text(i as int) =~= old(out)@.push('-') + nat_text(m as nat));
    } else {
        write_nat(i as u64, out);
    }
}

fn write_escaped_char(c: char, out: &mut String)
    ensures
        final(out)@ == old(out)@ + escape_char(c),
{
    let ghost o = out@;
    if c == '"' {
        push_char(out, '\\');
        push_char(out, '"');
    } else if c == '\\' {
        push_char(out, '\\');
        push_char(out, '\\');
    } else if c == '\n' {
        push_char(out, '\\');
        push_char(out, 'n');
    } else if c == '\r' {
        push_char(out, '\\');
        push_char(out, 'r');
    } else if c == '\t' {
        push_char(out, '\\');
        push_char(out, 't');
    } else if c == '\u{8}' {
        push_char(out, '\\');
        push_char(out, 'b');
    } else if c == '\u{c}' {
        push_char(out, '\\');
        push_char(out, 'f');
    } else if (c as u32) < 0x20 {
        let x = c as u32;
        push_char(out, '\\');
        push_char(out, 'u');
        push_char(out, '0');
        push_char(out, '0');
        push_char(out, digit_of((x / 16) as u64));
        push_char(out, digit_of((x % 16) as u64));
    } else {
        push_char(out, c);
    }
    assert(out@ =~= o + escape_char(c));
}

/// Writes a string as a JSON string literal.
pub fn write_quoted(s: &str, out: &mut String)
    ensures
        final(out)@ == old(out)@ + quote(s@),
{
    let cs = chars_of(s);
    let ghost parts = Seq::new(s@.len(), |i: int| escape_char(s@[i]));
    let ghost o = out@;
    push_char(out, '"');
    let mut i: usize = 0;
    while i < cs.len()
        invariant
            cs@ == s@,
            i <= cs@.len(),
            parts == Seq::new(s@.len(), |i: int| escape_char(s@[i])),
            out@ == o.push('"') + parts.subrange(0, i as int).flatten_alt(),
        decreases cs@.len() - i,
    {
        write_escaped_char(cs[i], out);
        assert(parts.subrange(0, i + 1).drop_last() =~= parts.subrange(0, i as int));
        i = i + 1;
    }
    assert(parts.subrange(0, i as int) =~= parts);
    push_char(out, '"');
    assert(out@ =~= o + quote(s@));
}

fn write_lead(i: usize, layout: &Layout, next: &String, out: &mut String)
    ensures
        final(out)@ == old(out)@ + (if i > 0 {
            seq![',']
        } else {
            Seq::empty()
        }) + layout.newline@ + next@,
{
    let ghost o = out@;
    if i > 0 {
        push_char(out, ',');
    }
    push_str(out, layout.newline.as_str());
    push_str(out, next.as_str());
    assert(out@ =~= o + (if i > 0 {
        seq![',']
    } else {
        Seq::empty()
    }) + layout.newline@ + next@);
}

/// Writes the JSON text of a node at depth `level`, where `cur` is the
/// indentation of that depth.
fn write_value(v: &JsonValue, layout: &Layout, cur: &String, Ghost(level): Ghost<nat>, out: &mut String)
    requires
        cur@ == repeat(layout.indent@, level),
    ensures
        final(out)@ == old(out)@ + render(v@, layout.indent@, layout.space@, layout.newline@, level),
    decreases v,
{
    let ghost ind = layout.indent@;
    let ghost sp = layout.space@;
    let ghost nl = layout.newline@;
    let ghost o = out@;
    match v {
        JsonValue::Null => push_str(out, "null"),
        JsonValue::Bool(b) => {
            if *b {
                push_str(out, "true");
            } else {
                push_str(out, "false");
            }
        },
        JsonValue::Integer(i) => write_int(*i, out),
        JsonValue::Double(d) => push_str(out, d.as_str()),
        JsonValue::Str(s) => write_quoted(s.as_str(), out),
        JsonValue::Array(a) => {
            if a.len() == 0 {
                push_str(out, "[]");
                return;
            }
            let mut next = cur.clone();
            push_str(&mut next, layout.indent.as_str());
            push_char(out, '[');
            let mut i: usize = 0;
            while i < a.len()
                invariant
                    i <= a@.len(),
                    *v == JsonValue::Array(*a),
                    decreases_to!(*v => *a),
                    v@->Arr_0.len() == a@.len(),
                    next@ == repeat(ind, level + 1),
                    ind == layout.indent@,
                    sp == layout.space@,
                    nl == layout.newline@,
                    out@ == o.push('[') + items_text(v@, i as nat, ind, sp, nl, level),
                decreases a@.len() - i,
            {
                proof {
                    assert(decreases_to!(*a => a[i as int]));
                }
                let ghost before = out@;
                write_lead(i, layout, &next, out);
                write_value(&a[i], layout, &next, Ghost(level + 1), out);
                assert(v@->Arr_0[i as int] == a@[i as int]@);
                i = i + 1;
                assert(out@ =~= o.push('[') + items_text(v@, i as nat, ind, sp, nl, level));
            }
            push_str(out, layout.newline.as_str());
            push_str(out, cur.as_str());
            push_char(out, ']');
            assert(out@ =~= o + render(v@, ind, sp, nl, level));
        },
        JsonValue::Object(m) => {
            if m.len() == 0 {
                push_str(out, "{}");
                return;
            }
            let mut next = cur.clone();
            push_str(&mut next, layout.indent.as_str());
            push_char(out, '{');
            let mut i: usize = 0;
            while i < m.len()
                invariant
                    i <= m@.len(),
                    *v == JsonValue::Object(*m),
                    decreases_to!(*v => *m),
                    v@->Obj_0.len() == m@.len(),
                    next@ == repeat(ind, level + 1),
                    ind == layout.indent@,
                    sp == layout.space@,
                    nl == layout.newline@,
                    out@ == o.push('{') + items_text(v@, i as nat, ind, sp, nl, level),
                decreases m@.len() - i,
            {
                proof {
                    assert(decreases_to!(*m => m[i as int]));
                }
                write_lead(i, layout, &next, out);
                write_quoted(m[i].0.as_str(), out);
                push_char(out, ':');
                push_str(out, layout.space.as_str());
                write_value(&m[i].1, layout, &next, Ghost(level + 1), out);
                assert(v@->Obj_0[i as int] == (m@[i as int].0@, m@[i as int].1@));
                i = i + 1;
                assert(out@ =~= o.push('{') + items_text(v@, i as nat, ind, sp, nl, level));
            }
            push_str(out, layout.newline.as_str());
            push_str(out, cur.as_str());
            push_char(out, '}');
            assert(out@ =~= o + render(v@, ind, sp, nl, level));
        },
    }
}

/// The JSON text of a node in the given layout.
pub fn to_json_text(v: &JsonValue, layout: &Layout) -> (r: String)
    ensures
        r@ == render(v@, layout.indent@, layout.space@, layout.newline@, 0),
{
    let mut out = String::new();
    let cur = String::new();
    write_value(v, layout, &cur, Ghost(0), &mut out);
    assert(out@ =~= Seq::<char>::empty() + render(v@, layout.indent@, layout.space@, layout.newline@, 0));
    out
}

/// Whether `c` occurs in one of the layout strings.
pub open spec fn from_layout(c: char, ind: Seq<char>, sp: Seq<char>, nl: Seq<char>) -> bool {
    ind.contains(c) || sp.contains(c) || nl.contains(c)
}

/// `r` is `c` with characters of the layout strings inserted.
pub open spec fn only_inserted(c: Seq<char>, r: Seq<char>, ind: Seq<char>, sp: Seq<char>, nl: Seq<char>) -> bool
    decreases r.len(),
{
    if r.len() == 0 {
        c.len() == 0
    } else {
        (c.len() > 0 && r[0] == c[0] && only_inserted(c.drop_first(), r.drop_first(), ind, sp, nl)) || (from_layout(
            r[0],
            ind,
            sp,
            nl,
        ) && only_inserted(c, r.drop_first(), ind, sp, nl))
    }
}

proof fn lemma_inserted_refl(s: Seq<char>, ind: Seq<char>, sp: Seq<char>, nl: Seq<char>)
    ensures
        only_inserted(s, s, ind, sp, nl),
    decreases s.len(),
{
    if s.len() > 0 {
        lemma_inserted_refl(s.drop_first(), ind, sp, nl);
    }
}

/// Every character of `w` comes from the layout strings.
pub open spec fn all_layout(w: Seq<char>, ind: Seq<char>, sp: Seq<char>, nl: Seq<char>) -> bool {
    forall|i: int| 0 <= i < w.len() ==> from_layout(#[trigger] w[i], ind, sp, nl)
}

proof fn lemma_inserted_pad(w: Seq<char>, c: Seq<char>, r: Seq<char>, ind: Seq<char>, sp: Seq<char>, nl: Seq<char>)
    requires
        all_layout(w, ind, sp, nl),
        only_inserted(c, r, ind, sp, nl),
    ensures
        only_inserted(c, w + r, ind, sp, nl),
    decreases w.len(),
{
    if w.len() > 0 {
        assert(all_layout(w.drop_first(), ind, sp, nl)) by {
            assert forall|i: int| 0 <= i < w.drop_first().len() implies from_layout(#[trigger] w.drop_first()[i], ind, sp, nl) by {
                assert(w.drop_first()[i] == w[i + 1]);
            }
        }
        lemma_inserted_pad(w.drop_first(), c, r, ind, sp, nl);
        assert((w + r).drop_first() =~= w.drop_first() + r);
        assert((w + r)[0] == w[0]);
    } else {
        assert(w + r =~= r);
    }
}

proof fn lemma_inserted_concat(
    c1: Seq<char>,
    r1: Seq<char>,
    c2: Seq<char>,
    r2: Seq<char>,
    ind: Seq<char>,
    sp: Seq<char>,
    nl: Seq<char>,
)
    requires
        only_inserted(c1, r1, ind, sp, nl),
        only_inserted(c2, r2, ind, sp, nl),
    ensures
        only_inserted(c1 + c2, r1 + r2, ind, sp, nl),
    decreases r1.len(),
{
    if r1.len() == 0 {
        assert(c1.len() == 0);
        assert(c1 + c2 =~= c2);
        assert(r1 + r2 =~= r2);
    } else {
        assert((r1 + r2).drop_first() =~= r1.drop_first() + r2);
        assert((r1 + r2)[0] == r1[0]);
        if c1.len() > 0 && r1[0] == c1[0] && only_inserted(c1.drop_first(), r1.drop_first(), ind, sp, nl) {
            lemma_inserted_concat(c1.drop_first(), r1.drop_first(), c2, r2, ind, sp, nl);
            assert((c1 + c2).drop_first() =~= c1.drop_first() + c2);
            assert((c1 + c2)[0] == c1[0]);
        } else {
            lemma_inserted_concat(c1, r1.drop_first(), c2, r2, ind, sp, nl);
        }
    }
}

proof fn lemma_repeat_layout(ind: Seq<char>, sp: Seq<char>, nl: Seq<char>, n: nat)
    ensures
        all_layout(repeat(ind, n), ind, sp, nl),
        all_layout(nl, ind, sp, nl),
        all_layout(sp, ind, sp, nl),
        repeat(Seq::<char>::empty(), n) == Seq::<char>::empty(),
    decreases n,
{
    if n > 0 {
        lemma_repeat_layout(ind, sp, nl, (n - 1) as nat);
        let a = repeat(ind, (n - 1) as nat);
        assert forall|i: int| 0 <= i < repeat(ind, n).len() implies from_layout(#[trigger] repeat(ind, n)[i], ind, sp, nl) by {
            if i < a.len() {
                assert(repeat(ind, n)[i] == a[i]);
            } else {
                assert(repeat(ind, n)[i] == ind[i - a.len()]);
                assert(ind.contains(ind[i - a.len()]));
            }
        }
        assert(repeat(Seq::<char>::empty(), n) =~= Seq::<char>::empty());
    }
    assert forall|i: int| 0 <= i < nl.len() implies from_layout(#[trigger] nl[i], ind, sp, nl) by {
        assert(nl.contains(nl[i]));
    }
    assert forall|i: int| 0 <= i < sp.len() implies from_layout(#[trigger] sp[i], ind, sp, nl) by {
        assert(sp.contains(sp[i]));
    }
}

/// The text of a node in any layout is its compact text with characters of
/// the layout strings inserted, and nothing else changed: a layout of
/// whitespace only adds whitespace.
pub proof fn lemma_layout_only_inserts(v: Json, ind: Seq<char>, sp: Seq<char>, nl: Seq<char>, level: nat)
    ensures
        only_inserted(
            render(v, Seq::empty(), Seq::empty(), Seq::empty(), level),
            render(v, ind, sp, nl, level),
            ind,
            sp,
            nl,
        ),
    decreases v, 1nat, 0nat,
{
    let e = Seq::<char>::empty();
    lemma_repeat_layout(ind, sp, nl, level);
    match v {
        Json::Arr(a) => {
            if a.len() == 0 {
                lemma_inserted_refl(render(v, ind, sp, nl, level), ind, sp, nl);
            } else {
                lemma_items_only_insert(v, a.len(), ind, sp, nl, level);
                lemma_bracketed(seq!['['], seq![']'], items_text(v, a.len(), e, e, e, level), items_text(v, a.len(), ind, sp, nl, level), ind, sp, nl, level);
            }
        },
        Json::Obj(o) => {
            if o.len() == 0 {
                lemma_inserted_refl(render(v, ind, sp, nl, level), ind, sp, nl);
            } else {
                lemma_items_only_insert(v, o.len(), ind, sp, nl, level);
                lemma_bracketed(seq!['{'], seq!['}'], items_text(v, o.len(), e, e, e, level), items_text(v, o.len(), ind, sp, nl, level), ind, sp, nl, level);
            }
        },
        _ => {
            lemma_inserted_refl(render(v, ind, sp, nl, level), ind, sp, nl);
        },
    }
}

proof fn lemma_bracketed(
    open: Seq<char>,
    close: Seq<char>,
    ci: Seq<char>,
    ri: Seq<char>,
    ind: Seq<char>,
    sp: Seq<char>,
    nl: Seq<char>,
    level: nat,
)
    requires
        only_inserted(ci, ri, ind, sp, nl),
        all_layout(nl + repeat(ind, level), ind, sp, nl),
    ensures
        only_inserted(
            open + ci + Seq::<char>::empty() + repeat(Seq::<char>::empty(), level) + close,
            open + ri + nl + repeat(ind, level) + close,
            ind,
            sp,
            nl,
        ),
{
    lemma_repeat_layout(ind, sp, nl, level);
    lemma_inserted_refl(open, ind, sp, nl);
    lemma_inserted_refl(close, ind, sp, nl);
    lemma_inserted_pad(nl + repeat(ind, level), close, close, ind, sp, nl);
    lemma_inserted_concat(ci, ri, close, nl + repeat(ind, level) + close, ind, sp, nl);
    lemma_inserted_concat(open, open, ci + close, ri + (nl + repeat(ind, level) + close), ind, sp, nl);
    assert(open + ci + Seq::<char>::empty() + repeat(Seq::<char>::empty(), level) + close =~= open + (ci + close));
    assert(open + ri + nl + repeat(ind, level) + close =~= open + (ri + (nl + repeat(ind, level) + close)));
}

proof fn lemma_items_only_insert(v: Json, n: nat, ind: Seq<char>, sp: Seq<char>, nl: Seq<char>, level: nat)
    ensures
        only_inserted(
            items_text(v, n, Seq::empty(), Seq::empty(), Seq::empty(), level),
            items_text(v, n, ind, sp, nl, level),
            ind,
            sp,
            nl,
        ),
    decreases v, 0nat, n,
{
    let e = Seq::<char>::empty();
    if n == 0 {
        lemma_inserted_refl(e, ind, sp, nl);
    } else {
        let i = n - 1;
        lemma_items_only_insert(v, (n - 1) as nat, ind, sp, nl, level);
        lemma_repeat_layout(ind, sp, nl, level + 1);
        let comma: Seq<char> = if i > 0 {
            seq![',']
        } else {
            Seq::empty()
        };
        // the lead of the item: the comma, then layout
        lemma_inserted_refl(comma, ind, sp, nl);
        assert(all_layout(nl + repeat(ind, level + 1), ind, sp, nl));
        let (ce, re): (Seq<char>, Seq<char>) = match v {
            Json::Arr(a) => if i < a.len() {
                lemma_layout_only_inserts(a[i], ind, sp, nl, level + 1);
                (render(a[i], e, e, e, level + 1), render(a[i], ind, sp, nl, level + 1))
            } else {
                (e, e)
            },
            Json::Obj(o) => if i < o.len() {
                lemma_layout_only_inserts(o[i].1, ind, sp, nl, level + 1);
                let head = quote(o[i].0) + seq![':'];
                lemma_inserted_refl(head, ind, sp, nl);
                let cr = render(o[i].1, e, e, e, level + 1);
                let rr = render(o[i].1, ind, sp, nl, level + 1);
                lemma_inserted_pad(sp, cr, rr, ind, sp, nl);
                lemma_inserted_concat(head, head, cr, sp + rr, ind, sp, nl);
                assert(head + (sp + rr) =~= quote(o[i].0) + seq![':'] + sp + rr);
                assert(head + cr =~= quote(o[i].0) + seq![':'] + e + cr);
                (quote(o[i].0) + seq![':'] + e + cr, quote(o[i].0) + seq![':'] + sp + rr)
            } else {
                (e, e)
            },
            _ => (e, e),
        };
        if !(v is Arr && i < v->Arr_0.len()) && !(v is Obj && i < v->Obj_0.len()) {
            lemma_inserted_refl(e, ind, sp, nl);
        }
        lemma_inserted_pad(nl + repeat(ind, level + 1), ce, re, ind, sp, nl);
        lemma_inserted_concat(comma, comma, ce, nl + repeat(ind, level + 1) + re, ind, sp, nl);
        let prev_c = items_text(v, (n - 1) as nat, e, e, e, level);
        let prev_r = items_text(v, (n - 1) as nat, ind, sp, nl, level);
        lemma_inserted_concat(prev_c, prev_r, comma + ce, comma + (nl + repeat(ind, level + 1) + re), ind, sp, nl);
        assert(item_lead(i, e, e, level + 1) =~= comma);
        assert(item_lead(i, nl, ind, level + 1) =~= comma + nl + repeat(ind, level + 1));
        assert(items_text(v, n, e, e, e, level) =~= prev_c + (comma + ce));
        assert(items_text(v, n, ind, sp, nl, level) =~= prev_r + (comma + (nl + repeat(ind, level + 1) + re)));
    }
}

/// With all three layout strings empty, the text is the compact text.
pub proof fn lemma_empty_layout_is_compact(v: Json, l: Layout)
    requires
        l.indent@.len() == 0,
        l.space@.len() == 0,
        l.newline@.len() == 0,
    ensures
        render(v, l.indent@, l.space@, l.newline@, 0) == compact(v),
{
    assert(l.indent@ =~= Seq::<char>::empty());
    assert(l.space@ =~= Seq::<char>::empty());
    assert(l.newline@ =~= Seq::<char>::empty());
}

/// A reply in the host's generic value shape.
#[derive(Debug)]
pub enum Reply {
    Null,
    SimpleString(String),
    Integer(i64),
    /// A double, by its decimal text.
    Float(String),
    BulkString(String),
    Array(Vec<Reply>),
}

/// The model of a reply.
pub enum Resp {
    Null,
    Simple(Seq<char>),
    Int(int),
    Float(Seq<char>),
    Bulk(Seq<char>),
    Arr(Seq<Resp>),
}

impl Reply {
    pub open spec fn model(&self) -> Resp
        decreases self,
    {
        match self {
            Reply::Null => Resp::Null,
            Reply::SimpleString(s) => Resp::Simple(s@),
            Reply::Integer(i) => Resp::Int(*i as int),
            Reply::Float(d) => Resp::Float(d@),
            Reply::BulkString(s) => Resp::Bulk(s@),
            Reply::Array(a) => Resp::Arr(
                Seq::new(a@.len(), |i: int| if 0 <= i < a@.len() { a@[i].model() } else { Resp::Null }),
            ),
        }
    }
}

impl View for Reply {
    type V = Resp;

    open spec fn view(&self) -> Resp {
        self.model()
    }
}

pub open spec fn reply_models(a: Seq<Reply>) -> Seq<Resp> {
    Seq::new(a.len(), |i: int| a[i]@)
}

proof fn lemma_reply_models()
    ensures
        forall|a: Vec<Reply>| #[trigger] Reply::Array(a)@ == Resp::Arr(reply_models(a@)),
{
    assert forall|a: Vec<Reply>| #[trigger] Reply::Array(a)@ == Resp::Arr(reply_models(a@)) by {
        assert(Reply::Array(a)@->Arr_0 =~= reply_models(a@));
    }
}

/// The protocol reply of a node: `null`, `true`/`false` as simple strings,
/// integers, doubles, bulk strings; an array as the marker `[` followed by its
/// elements; an object as the marker `{` followed by its keys and values in turn.
pub open spec fn resp_of(v: Json) -> Resp
    decreases v, 1nat, 0nat,
{
    match v {
        Json::Null => Resp::Null,
        Json::Bool(b) => Resp::Simple(if b {
            "true"@
        } else {
            "false"@
        }),
        Json::Int(i) => Resp::Int(i),
        Json::Double(d) => Resp::Float(d),
        Json::Str(s) => Resp::Bulk(s),
        Json::Arr(a) => Resp::Arr(seq![Resp::Simple("["@)] + resp_items(v, a.len())),
        Json::Obj(o) => Resp::Arr(seq![Resp::Simple("{"@)] + resp_items(v, o.len())),
    }
}

/// The replies of the first `n` items of the array or object `v`.
pub open spec fn resp_items(v: Json, n: nat) -> Seq<Resp>
    decreases v, 0nat, n,
{
    if n == 0 {
        Seq::empty()
    } else {
        let i = n - 1;
        let more = match v {
            Json::Arr(a) => if i < a.len() {
                seq![resp_of(a[i])]
            } else {
                Seq::empty()
            },
            Json::Obj(o) => if i < o.len() {
                seq![Resp::Bulk(o[i].0), resp_of(o[i].1)]
            } else {
                Seq::empty()
            },
            _ => Seq::empty(),
        };
        resp_items(v, (n - 1) as nat) + more
    }
}

fn static_reply(s: &str) -> (r: Reply)
    ensures
        r@ == Resp::Simple(s@),
{
    Reply::SimpleString(String::from_str(s))
}

/// The protocol reply of a node (see `resp_of`).
pub fn resp_serialize_inner(v: &JsonValue) -> (r: Reply)
    ensures
        r@ == resp_of(v@),
    decreases v,
{
    proof {
        lemma_reply_models();
    }
    match v {
        JsonValue::Null => Reply::Null,
        JsonValue::Bool(b) => {
            if *b {
                static_reply("true")
            } else {
                static_reply("false")
            }
        },
        JsonValue::Integer(i) => Reply::Integer(*i),
        JsonValue::Double(d) => Reply::Float(d.clone()),
        JsonValue::Str(s) => Reply::BulkString(s.clone()),
        JsonValue::Array(a) => {
            let mut res: Vec<Reply> = Vec::new();
            res.push(static_reply("["));
            let mut i: usize = 0;
            while i < a.len()
                invariant
                    i <= a@.len(),
                    *v == JsonValue::Array(*a),
                    decreases_to!(*v => *a),
                    v@->Arr_0.len() == a@.len(),
                    reply_models(res@) == seq![Resp::Simple("["@)] + resp_items(v@, i as nat),
                decreases a@.len() - i,
            {
                proof {
                    assert(decreases_to!(*a => a[i as int]));
                }
                let ghost r0 = res@;
                let x = resp_serialize_inner(&a[i]);
                res.push(x);
                assert(v@->Arr_0[i as int] == a@[i as int]@);
                i = i + 1;
                assert(reply_models(res@) =~= reply_models(r0).push(x@));
                assert(reply_models(res@) =~= seq![Resp::Simple("["@)] + resp_items(v@, i as nat));
            }
            Reply::Array(res)
        },
        JsonValue::Object(m) => {
            let mut res: Vec<Reply> = Vec::new();
            res.push(static_reply("{"));
            let mut i: usize = 0;
            while i < m.len()
                invariant
                    i <= m@.len(),
                    *v == JsonValue::Object(*m),
                    decreases_to!(*v => *m),
                    v@->Obj_0.len() == m@.len(),
                    reply_models(res@) == seq![Resp::Simple("{"@)] + resp_items(v@, i as nat),
                decreases m@.len() - i,
            {
                proof {
                    assert(decreases_to!(*m => m[i as int]));
                }
                let ghost r0 = res@;
                let k = Reply::BulkString(m[i].0.clone());
                let x = resp_serialize_inner(&m[i].1);
                res.push(k);
                res.push(x);
                assert(v@->Obj_0[i as int] == (m@[i as int].0@, m@[i as int].1@));
                i = i + 1;
                assert(reply_models(res@) =~= reply_models(r0) + seq![Resp::Bulk(m@[i - 1].0@), x@]);
                assert(reply_models(res@) =~= seq![Resp::Simple("{"@)] + resp_items(v@, i as nat));
            }
            Reply::Array(res)
        },
    }
}

} // verus!
