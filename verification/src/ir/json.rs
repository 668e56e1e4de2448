//! Deterministic pretty JSON: values, their rendering, and the rendering of
//! the graph.

use vstd::prelude::*;
use vstd::string::StrSliceExecFns;
use vstd::string::StringExecFns;
use crate::text::{decimal, digit_char, hex4, hex_char, push_char, push_decimal, push_hex4};

verus! {

/// A JSON value as text is made of it.
pub enum JsonView {
    Bool(bool),
    Number(nat),
    Str(Seq<char>),
    Array(Seq<JsonView>),
    Object(Seq<(Seq<char>, JsonView)>),
}

/// Deterministic JSON value used to render the graph. Object key order is
/// the insertion order.
pub enum JsonValue {
    Bool(bool),
    Number(usize),
    String(String),
    Array(Vec<JsonValue>),
    /// Preserves insertion order.
    Object(Vec<(String, JsonValue)>),
}

/// The mathematical value of a JSON value.
pub open spec fn json_view(v: JsonValue) -> JsonView
    decreases v, 0int,
{
    match v {
        JsonValue::Bool(b) => JsonView::Bool(b),
        JsonValue::Number(n) => JsonView::Number(n as nat),
        JsonValue::String(s) => JsonView::Str(s@),
        JsonValue::Array(vs) => JsonView::Array(items_view(vs@, vs@.len() as int)),
        JsonValue::Object(es) => JsonView::Object(entries_view(es@, es@.len() as int)),
    }
}

/// Views of the first `n` items.
pub open spec fn items_view(vs: Seq<JsonValue>, n: int) -> Seq<JsonView>
    decreases vs, n,
{
    if n <= 0 || n > vs.len() {
        Seq::empty()
    } else {
        items_view(vs, n - 1).push(json_view(vs[n - 1]))
    }
}

/// Views of the first `n` entries.
pub open spec fn entries_view(es: Seq<(String, JsonValue)>, n: int) -> Seq<(Seq<char>, JsonView)>
    decreases es, n,
{
    if n <= 0 || n > es.len() {
        Seq::empty()
    } else {
        entries_view(es, n - 1).push((es[n - 1].0@, json_view(es[n - 1].1)))
    }
}

/// Nesting depth of arrays and objects.
pub open spec fn depth(j: JsonView) -> nat
    decreases j, 0int,
{
    match j {
        JsonView::Array(vs) => 1 + items_depth(vs, vs.len() as int),
        JsonView::Object(es) => 1 + entries_depth(es, es.len() as int),
        _ => 0,
    }
}

/// Largest depth of the first `n` items.
pub open spec fn items_depth(vs: Seq<JsonView>, n: int) -> nat
    decreases vs, n,
{
    if n <= 0 || n > vs.len() {
        0
    } else {
        let a = items_depth(vs, n - 1);
        let b = depth(vs[n - 1]);
        if a < b {
            b
        } else {
            a
        }
    }
}

/// Largest depth of the values of the first `n` entries.
pub open spec fn entries_depth(es: Seq<(Seq<char>, JsonView)>, n: int) -> nat
    decreases es, n,
{
    if n <= 0 || n > es.len() {
        0
    } else {
        let a = entries_depth(es, n - 1);
        let b = depth(es[n - 1].1);
        if a < b {
            b
        } else {
            a
        }
    }
}

/// The JSON escape of one character.
pub open spec fn escape_char(c: char) -> Seq<char> {
    if c == '"' {
        seq!['\\', '"']
    } else if c == '\\' {
        seq!['\\', '\\']
    } else if c == '\n' {
        seq!['\\', 'n']
    } else if c == '\t' {
        seq!['\\', 't']
    } else if (c as u32) < 0x20 {
        seq!['\\', 'u'] + hex4(c as u32 as nat)
    } else {
        seq![c]
    }
}

/// The JSON escape of a string.
pub open spec fn escaped(s: Seq<char>) -> Seq<char>
    decreases s.len(),
{
    if s.len() == 0 {
        Seq::empty()
    } else {
        escaped(s.drop_last()) + escape_char(s.last())
    }
}

/// A JSON string literal.
pub open spec fn quoted(s: Seq<char>) -> Seq<char> {
    seq!['"'] + escaped(s) + seq!['"']
}

/// The character a one-letter JSON escape `\e` stands for.
pub open spec fn short_escape(e: char) -> Option<char> {
    if e == '"' {
        Some('"')
    } else if e == '\\' {
        Some('\\')
    } else if e == '/' {
        Some('/')
    } else if e == 'b' {
        Some('\u{8}')
    } else if e == 'f' {
        Some('\u{c}')
    } else if e == 'n' {
        Some('\n')
    } else if e == 'r' {
        Some('\r')
    } else if e == 't' {
        Some('\t')
    } else {
        None
    }
}

/// A hexadecimal digit, either case.
pub open spec fn is_hex_digit(c: char) -> bool {
    (0x30 <= c as u32 <= 0x39) || (0x41 <= c as u32 <= 0x46) || (0x61 <= c as u32 <= 0x66)
}

/// The value of a hexadecimal digit.
pub open spec fn hex_value(c: char) -> int {
    if c as u32 <= 0x39 {
        c as u32 - 0x30
    } else if c as u32 <= 0x46 {
        c as u32 - 0x41 + 10
    } else {
        c as u32 - 0x61 + 10
    }
}

/// `c` in front of the text `r` decoded so far, if decoding succeeded.
pub open spec fn prepend(c: char, r: Option<Seq<char>>) -> Option<Seq<char>> {
    match r {
        Some(t) => Some(seq![c] + t),
        None => None,
    }
}

/// Decodes the body of a JSON string literal, after its opening quote: the
/// text it stands for, when the body ends at its first unescaped quote and
/// that quote is the last character. A raw control character, a missing
/// closing quote, an unknown escape or a `\u` escape of a surrogate (pairs
/// are not joined) is no string.
pub open spec fn read_body(s: Seq<char>) -> Option<Seq<char>>
    decreases s.len(),
{
    if s.len() == 0 {
        None
    } else if s[0] == '"' {
        if s.len() == 1 {
            Some(Seq::empty())
        } else {
            None
        }
    } else if (s[0] as u32) < 0x20 {
        None
    } else if s[0] == '\\' {
        if s.len() >= 2 && short_escape(s[1]) is Some {
            prepend(short_escape(s[1])->0, read_body(s.subrange(2, s.len() as int)))
        } else if s.len() >= 6 && s[1] == 'u' && is_hex_digit(s[2]) && is_hex_digit(s[3]) && is_hex_digit(s[4])
            && is_hex_digit(s[5]) {
            let code = 4096 * hex_value(s[2]) + 256 * hex_value(s[3]) + 16 * hex_value(s[4]) + hex_value(s[5]);
            if 0xD800 <= code <= 0xDFFF {
                None
            } else {
                prepend(code as char, read_body(s.subrange(6, s.len() as int)))
            }
        } else {
            None
        }
    } else {
        prepend(s[0], read_body(s.drop_first()))
    }
}

/// Decodes a JSON string literal: the text it stands for, if it is one.
pub open spec fn decode_string(s: Seq<char>) -> Option<Seq<char>> {
    if s.len() > 0 && s[0] == '"' {
        read_body(s.drop_first())
    } else {
        None
    }
}

proof fn lemma_escaped_concat(a: Seq<char>, b: Seq<char>)
    ensures
        escaped(a + b) == escaped(a) + escaped(b),
    decreases b.len(),
{
    if b.len() == 0 {
        assert(a + b =~= a);
        assert(escaped(a) + escaped(b) =~= escaped(a));
    } else {
        lemma_escaped_concat(a, b.drop_last());
        assert((a + b).drop_last() =~= a + b.drop_last());
        assert((a + b).last() == b.last());
        assert(escaped(a + b) =~= escaped(a) + escaped(b));
    }
}

proof fn lemma_hex_digit(d: nat)
    requires
        d < 16,
    ensures
        is_hex_digit(hex_char(d)),
        hex_value(hex_char(d)) == d,
{
    if d < 10 {
        assert(digit_char(d) as u32 == 0x30 + d) by {
            reveal_with_fuel(digit_char, 1);
        }
    }
}

proof fn lemma_read_escape(c: char, t: Seq<char>)
    ensures
        read_body(escape_char(c) + t) == prepend(c, read_body(t)),
{
    let s = escape_char(c) + t;
    if c == '"' || c == '\\' || c == '\n' || c == '\t' {
        assert(s[0] == '\\');
        assert(s.subrange(2, s.len() as int) =~= t);
    } else if (c as u32) < 0x20 {
        let n = c as u32 as nat;
        assert(n / 4096 == 0 && n / 256 == 0 && (n / 16) % 16 == n / 16);
        lemma_hex_digit(0);
        lemma_hex_digit((n / 16) % 16);
        lemma_hex_digit(n % 16);
        assert(s[0] == '\\' && s[1] == 'u');
        assert(s[2] == hex_char(0) && s[3] == hex_char(0));
        assert(s[4] == hex_char((n / 16) % 16) && s[5] == hex_char(n % 16));
        let code = 4096 * hex_value(s[2]) + 256 * hex_value(s[3]) + 16 * hex_value(s[4]) + hex_value(s[5]);
        assert(code == n);
        assert(code as char == c);
        assert(s.subrange(6, s.len() as int) =~= t);
    } else {
        assert(s[0] == c);
        assert(s.drop_first() =~= t);
    }
}

proof fn lemma_read_escaped(v: Seq<char>)
    ensures
        read_body(escaped(v) + seq!['"']) == Some(v),
    decreases v.len(),
{
    if v.len() == 0 {
        assert(escaped(v) + seq!['"'] =~= seq!['"']);
    } else {
        let rest = v.drop_first();
        lemma_escaped_concat(seq![v[0]], rest);
        assert(seq![v[0]] + rest =~= v);
        let one = seq![v[0]];
        assert(one.last() == v[0]);
        assert(one.drop_last() =~= Seq::<char>::empty());
        assert(escaped(one.drop_last()) == Seq::<char>::empty());
        assert(escaped(one) =~= escape_char(v[0]));
        lemma_read_escaped(rest);
        lemma_read_escape(v[0], escaped(rest) + seq!['"']);
        assert(escaped(v) + seq!['"'] =~= escape_char(v[0]) + (escaped(rest) + seq!['"']));
        assert(seq![v[0]] + rest =~= v);
    }
}

/// Decoding the JSON string literal of a text gives the text back: the
/// escape leaves no raw control character and no unescaped quote inside.
pub proof fn law_string_round_trip(v: Seq<char>)
    ensures
        decode_string(quoted(v)) == Some(v),
{
    lemma_read_escaped(v);
    assert(quoted(v).drop_first() =~= escaped(v) + seq!['"']);
}

/// Two spaces per indentation level.
pub open spec fn pad(indent: nat) -> Seq<char> {
    Seq::new(2 * indent, |i: int| ' ')
}

/// Pretty rendering at indentation level `indent`: scalars inline, an
/// empty array or object as `[]` or `{}`, otherwise one item per line,
/// indented one level deeper, separated by commas, and the closing bracket
/// on its own line at the current level.
pub open spec fn render_view(j: JsonView, indent: nat) -> Seq<char>
    decreases j, 0int,
{
    match j {
        JsonView::Bool(b) => if b {
            "true"@
        } else {
            "false"@
        },
        JsonView::Number(n) => decimal(n),
        JsonView::Str(s) => quoted(s),
        JsonView::Array(vs) => if vs.len() == 0 {
            "[]"@
        } else {
            "[\n"@ + items_text(vs, indent, vs.len() as int) + pad(indent) + "]"@
        },
        JsonView::Object(es) => if es.len() == 0 {
            "{}"@
        } else {
            "{\n"@ + entries_text(es, indent, es.len() as int) + pad(indent) + "}"@
        },
    }
}

/// The comma after item `k` of `len` items.
pub open spec fn comma(k: int, len: int) -> Seq<char> {
    if k + 1 < len {
        ","@
    } else {
        ""@
    }
}

/// The lines of the first `n` items of an array at level `indent`.
pub open spec fn items_text(vs: Seq<JsonView>, indent: nat, n: int) -> Seq<char>
    decreases vs, n,
{
    if n <= 0 || n > vs.len() {
        Seq::empty()
    } else {
        items_text(vs, indent, n - 1) + pad(indent + 1) + render_view(vs[n - 1], indent + 1) + comma(n - 1, vs.len() as int)
            + "\n"@
    }
}

/// The lines of the first `n` entries of an object at level `indent`.
pub open spec fn entries_text(es: Seq<(Seq<char>, JsonView)>, indent: nat, n: int) -> Seq<char>
    decreases es, n,
{
    if n <= 0 || n > es.len() {
        Seq::empty()
    } else {
        entries_text(es, indent, n - 1) + pad(indent + 1) + quoted(es[n - 1].0) + ": "@ + render_view(es[n - 1].1, indent + 1)
            + comma(n - 1, es.len() as int) + "\n"@
    }
}

/// Appends the JSON string literal of `value`.
pub fn render_string(value: &str, out: &mut String)
    ensures
        final(out)@ == old(out)@ + quoted(value@),
{
    let ghost start = out@;
    push_char(out, '"');
    let len = value.unicode_len();
    let mut i: usize = 0;
    while i < len
        invariant
            i <= len,
            len == value@.len(),
            out@ == start + seq!['"'] + escaped(value@.take(i as int)),
        decreases len - i,
    {
        let ch = value.get_char(i);
        let ghost before = out@;
        assert(value@.take(i + 1).drop_last() =~= value@.take(i as int));
        assert(value@.take(i + 1).last() == ch);
        if ch == '"' {
            out.append("\\\"");
        } else if ch == '\\' {
            out.append("\\\\");
        } else if ch == '\n' {
            out.append("\\n");
        } else if ch == '\t' {
            out.append("\\t");
        } else if (ch as u32) < 0x20 {
            out.append("\\u");
            push_hex4(out, ch as u32);
        } else {
            push_char(out, ch);
        }
        proof {
            reveal_strlit("\\\"");
            reveal_strlit("\\\\");
            reveal_strlit("\\n");
            reveal_strlit("\\t");
            reveal_strlit("\\u");
            assert(out@ =~= before + escape_char(ch));
        }
        i = i + 1;
    }
    push_char(out, '"');
    assert(value@.take(len as int) =~= value@);
    assert(out@ =~= start + quoted(value@));
}

proof fn lemma_items_view(vs: Seq<JsonValue>, n: int)
    requires
        0 <= n <= vs.len(),
    ensures
        items_view(vs, n).len() == n,
        forall|k: int| 0 <= k < n ==> #[trigger] items_view(vs, n)[k] == json_view(vs[k]),
    decreases n,
{
    if n > 0 {
        lemma_items_view(vs, n - 1);
    }
}

proof fn lemma_entries_view(es: Seq<(String, JsonValue)>, n: int)
    requires
        0 <= n <= es.len(),
    ensures
        entries_view(es, n).len() == n,
        forall|k: int| 0 <= k < n ==> #[trigger] entries_view(es, n)[k] == (es[k].0@, json_view(es[k].1)),
    decreases n,
{
    if n > 0 {
        lemma_entries_view(es, n - 1);
    }
}

proof fn lemma_items_depth(vs: Seq<JsonView>, n: int, k: int)
    requires
        0 <= k < n <= vs.len(),
    ensures
        depth(vs[k]) <= items_depth(vs, n),
    decreases n,
{
    if k < n - 1 {
        lemma_items_depth(vs, n - 1, k);
    }
}

proof fn lemma_entries_depth(es: Seq<(Seq<char>, JsonView)>, n: int, k: int)
    requires
        0 <= k < n <= es.len(),
    ensures
        depth(es[k].1) <= entries_depth(es, n),
    decreases n,
{
    if k < n - 1 {
        lemma_entries_depth(es, n - 1, k);
    }
}

proof fn lemma_entries_depth_prefix(es: Seq<(Seq<char>, JsonView)>, x: (Seq<char>, JsonView), n: int)
    requires
        0 <= n <= es.len(),
    ensures
        entries_depth(es.push(x), n) == entries_depth(es, n),
    decreases n,
{
    if n > 0 {
        lemma_entries_depth_prefix(es, x, n - 1);
        assert(es.push(x)[n - 1] == es[n - 1]);
    }
}

proof fn lemma_entries_depth_push(es: Seq<(Seq<char>, JsonView)>, x: (Seq<char>, JsonView))
    ensures
        entries_depth(es.push(x), es.len() + 1int) == if entries_depth(es, es.len() as int) < depth(x.1) {
            depth(x.1)
        } else {
            entries_depth(es, es.len() as int)
        },
{
    lemma_entries_depth_prefix(es, x, es.len() as int);
    assert(es.push(x)[es.len() as int] == x);
}

proof fn lemma_items_depth_bound(vs: Seq<JsonView>, n: int, bound: nat)
    requires
        0 <= n <= vs.len(),
        forall|k: int| 0 <= k < n ==> depth(#[trigger] vs[k]) <= bound,
    ensures
        items_depth(vs, n) <= bound,
    decreases n,
{
    if n > 0 {
        lemma_items_depth_bound(vs, n - 1, bound);
    }
}

/// Appends two spaces per indentation level.
fn push_pad(out: &mut String, indent: usize)
    ensures
        final(out)@ == old(out)@ + pad(indent as nat),
{
    let ghost start = out@;
    let mut i: usize = 0;
    while i < indent
        invariant
            i <= indent,
            out@ == start + pad(i as nat),
        decreases indent - i,
    {
        push_char(out, ' ');
        push_char(out, ' ');
        assert(out@ =~= start + pad((i + 1) as nat));
        i = i + 1;
    }
}

impl JsonValue {
    /// A JSON string.
    pub fn string(value: String) -> (r: JsonValue)
        ensures
            json_view(r) == JsonView::Str(value@),
    {
        JsonValue::String(value)
    }

    /// Appends an entry to an object.
    pub fn push(&mut self, key: String, value: JsonValue)
        requires
            *old(self) is Object,
        ensures
            *final(self) is Object,
            json_view(*final(self)) == JsonView::Object(json_view(*old(self))->Object_0.push((key@, json_view(value)))),
            depth(json_view(*final(self))) <= if depth(json_view(*old(self))) < 1 + depth(json_view(value)) {
                1 + depth(json_view(value))
            } else {
                depth(json_view(*old(self)))
            },
    {
        let ghost kv = key@;
        let ghost vv = json_view(value);
        match self {
            JsonValue::Object(entries) => {
                let ghost before = entries@;
                entries.push((key, value));
                proof {
                    lemma_entries_view(before, before.len() as int);
                    lemma_entries_view(entries@, entries@.len() as int);
                    let ev0 = entries_view(before, before.len() as int);
                    let ev1 = entries_view(entries@, entries@.len() as int);
                    assert(ev1 =~= ev0.push((kv, vv)));
                    lemma_entries_depth_push(ev0, (kv, vv));
                }
            },
            _ => {},
        }
    }

    /// Appends the pretty rendering of the value at level `indent`.
    pub fn render(&self, out: &mut String, indent: usize)
        requires
            indent + depth(json_view(*self)) < usize::MAX,
        ensures
            final(out)@ == old(out)@ + render_view(json_view(*self), indent as nat),
        decreases self,
    {
        let ghost start = out@;
        match self {
            JsonValue::Bool(value) => {
                if *value {
                    out.append("true");
                } else {
                    out.append("false");
                }
            },
            JsonValue::Number(value) => {
                push_decimal(out, *value);
            },
            JsonValue::String(value) => {
                render_string(value.as_str(), out);
            },
            JsonValue::Array(values) => {
                let ghost jv = items_view(values@, values@.len() as int);
                proof {
                    lemma_items_view(values@, values@.len() as int);
                }
                if values.len() == 0 {
                    out.append("[]");
                    return;
                }
                out.append("[\n");
                assert(forall|j: int|
                    0 <= j < values.len() ==> decreases_to!(*self => #[trigger] values@[j]));
                let mut index: usize = 0;
                while index < values.len()
                    invariant
                        index <= values.len(),
                        jv == items_view(values@, values@.len() as int),
                        jv.len() == values.len(),
                        forall|k: int| 0 <= k < values.len() ==> #[trigger] jv[k] == json_view(values@[k]),
                        indent + 1 + items_depth(jv, jv.len() as int) < usize::MAX,
                        forall|j: int|
                            0 <= j < values.len() ==> decreases_to!(*self => #[trigger] values@[j]),
                        out@ == start + "[\n"@ + items_text(jv, indent as nat, index as int),
                    decreases values.len() - index,
                {
                    push_pad(out, indent + 1);
                    proof {
                        lemma_items_depth(jv, jv.len() as int, index as int);
                    }
                    values[index].render(out, indent + 1);
                    if index + 1 < values.len() {
                        push_char(out, ',');
                    }
                    push_char(out, '\n');
                    proof {
                        reveal_strlit(",");
                        reveal_strlit("\n");
                        reveal_strlit("");
                    }
                    assert(out@ =~= start + "[\n"@ + items_text(jv, indent as nat, index + 1));
                    index = index + 1;
                }
                push_pad(out, indent);
                push_char(out, ']');
                proof {
                    reveal_strlit("]");
                }
                assert(out@ =~= start + render_view(json_view(*self), indent as nat));
            },
            JsonValue::Object(entries) => {
                let ghost jv = entries_view(entries@, entries@.len() as int);
                proof {
                    lemma_entries_view(entries@, entries@.len() as int);
                }
                if entries.len() == 0 {
                    out.append("{}");
                    return;
                }
                out.append("{\n");
                assert(forall|j: int|
                    0 <= j < entries.len() ==> decreases_to!(*self => #[trigger] entries@[j].1));
                let mut index: usize = 0;
                while index < entries.len()
                    invariant
                        index <= entries.len(),
                        jv == entries_view(entries@, entries@.len() as int),
                        jv.len() == entries.len(),
                        forall|k: int| 0 <= k < entries.len() ==> #[trigger] jv[k] == (entries@[k].0@, json_view(entries@[k].1)),
                        indent + 1 + entries_depth(jv, jv.len() as int) < usize::MAX,
                        forall|j: int|
                            0 <= j < entries.len() ==> decreases_to!(*self => #[trigger] entries@[j].1),
                        out@ == start + "{\n"@ + entries_text(jv, indent as nat, index as int),
                    decreases entries.len() - index,
                {
                    push_pad(out, indent + 1);
                    render_string(entries[index].0.as_str(), out);
                    out.append(": ");
                    proof {
                        lemma_entries_depth(jv, jv.len() as int, index as int);
                    }
                    entries[index].1.render(out, indent + 1);
                    if index + 1 < entries.len() {
                        push_char(out, ',');
                    }
                    push_char(out, '\n');
                    proof {
                        reveal_strlit(",");
                        reveal_strlit("\n");
                        reveal_strlit("");
                    }
                    assert(out@ =~= start + "{\n"@ + entries_text(jv, indent as nat, index + 1));
                    index = index + 1;
                }
                push_pad(out, indent);
                push_char(out, '}');
                proof {
                    reveal_strlit("}");
                }
                assert(out@ =~= start + render_view(json_view(*self), indent as nat));
            },
        }
    }
}

/// A JSON array of the given values.
pub(crate) fn array_of(values: Vec<JsonValue>, Ghost(bound): Ghost<nat>) -> (r: JsonValue)
    requires
        forall|k: int| 0 <= k < values.len() ==> depth(json_view(#[trigger] values@[k])) <= bound,
    ensures
        json_view(r) == JsonView::Array(Seq::new(values.len() as nat, |k: int| json_view(values@[k]))),
        depth(json_view(r)) <= bound + 1,
{
    proof {
        lemma_items_view(values@, values@.len() as int);
        let iv = items_view(values@, values@.len() as int);
        assert(iv =~= Seq::new(values.len() as nat, |k: int| json_view(values@[k])));
        lemma_items_depth_bound(iv, iv.len() as int, bound);
    }
    JsonValue::Array(values)
}

/// A JSON array of strings.
pub open spec fn strings_view(ss: Seq<Seq<char>>) -> JsonView {
    JsonView::Array(Seq::new(ss.len(), |k: int| JsonView::Str(ss[k])))
}

/// A JSON array of the given strings.
pub fn strings(values: &Vec<String>) -> (r: JsonValue)
    ensures
        json_view(r) == strings_view(values.deep_view()),
        depth(json_view(r)) <= 1,
{
    let mut items: Vec<JsonValue> = Vec::new();
    let mut k: usize = 0;
    while k < values.len()
        invariant
            k <= values.len(),
            items.len() == k,
            forall|j: int| 0 <= j < k ==> #[trigger] json_view(items@[j]) == JsonView::Str(values.deep_view()[j]),
        decreases values.len() - k,
    {
        let item = JsonValue::string(values[k].clone());
        assert(json_view(item) == JsonView::Str(values.deep_view()[k as int]));
        items.push(item);
        k = k + 1;
    }
    let r = array_of(items, Ghost(0));
    assert(Seq::new(items.len() as nat, |j: int| json_view(items@[j])) =~= Seq::new(values.deep_view().len(), |j: int| JsonView::Str(values.deep_view()[j])));
    r
}

} // verus!
