use vstd::prelude::*;

use crate::json::{
    elements_at, is_decimal, is_digit, is_numeral_char, is_sign, is_space, members_at,
    numeral_len, parse_spec, parsed, spaces, text_len, value_at, JSONValue, Json, ParseError,
};

verus! {

broadcast use {vstd::seq::axiom_seq_index_decreases, vstd::seq::axiom_seq_subrange_decreases};

/// The canonical text of a tree: no whitespace, members as `"key":value`,
/// items separated by `,`.
pub open spec fn serialize(j: Json) -> Seq<char>
    decreases j,
{
    match j {
        Json::Object(ms) => seq!['{'] + members_text(ms) + seq!['}'],
        Json::Array(es) => seq!['['] + elements_text(es) + seq![']'],
        Json::Str(t) => seq!['"'] + t + seq!['"'],
        Json::Num(t) => t,
        Json::Bool(b) => if b {
            seq!['t', 'r', 'u', 'e']
        } else {
            seq!['f', 'a', 'l', 's', 'e']
        },
        Json::Null => seq!['n', 'u', 'l', 'l'],
    }
}

pub open spec fn members_text(ms: Seq<(Seq<char>, Json)>) -> Seq<char>
    decreases ms,
{
    if ms.len() == 0 {
        Seq::empty()
    } else {
        let head = seq!['"'] + ms[0].0 + seq!['"', ':'] + serialize(ms[0].1);
        if ms.len() == 1 {
            head
        } else {
            head + seq![','] + members_text(ms.subrange(1, ms.len() as int))
        }
    }
}

pub open spec fn elements_text(es: Seq<Json>) -> Seq<char>
    decreases es,
{
    if es.len() == 0 {
        Seq::empty()
    } else if es.len() == 1 {
        serialize(es[0])
    } else {
        serialize(es[0]) + seq![','] + elements_text(es.subrange(1, es.len() as int))
    }
}

pub open spec fn quote_free(t: Seq<char>) -> bool {
    forall|k: int| 0 <= k < t.len() ==> t[k] != '"'
}

/// A numeral that the parser reads as one number.
pub open spec fn is_numeral(t: Seq<char>) -> bool {
    &&& t.len() >= 1
    &&& is_sign(t[0]) || is_digit(t[0])
    &&& forall|k: int| 0 <= k < t.len() ==> is_numeral_char(t[k])
    &&& is_decimal(t)
}

/// A tree that has a canonical text: strings and keys hold no `"`, and
/// numbers are decimal numerals that start with a sign or a digit.
pub open spec fn well_formed(j: Json) -> bool
    decreases j,
{
    match j {
        Json::Object(ms) => forall|k: int|
            0 <= k < ms.len() ==> quote_free(#[trigger] ms[k].0) && well_formed(ms[k].1),
        Json::Array(es) => forall|k: int| 0 <= k < es.len() ==> well_formed(#[trigger] es[k]),
        Json::Str(t) => quote_free(t),
        Json::Num(t) => is_numeral(t),
        _ => true,
    }
}

/// `t` stands in `s` from index `i`.
pub open spec fn occurs_at(s: Seq<char>, i: int, t: Seq<char>) -> bool {
    &&& 0 <= i
    &&& i + t.len() <= s.len()
    &&& forall|k: int| 0 <= k < t.len() ==> s[i + k] == t[k]
}

/// What may follow a value in canonical text.
pub open spec fn ends_value(s: Seq<char>, e: int) -> bool {
    e == s.len() || (0 <= e < s.len() && (s[e] == ',' || s[e] == ']' || s[e] == '}'))
}

/// The characters a value's canonical text can start with.
pub open spec fn starts_value(c: char) -> bool {
    c == '{' || c == '[' || c == '"' || is_sign(c) || is_digit(c) || c == 't' || c == 'f' || c
        == 'n'
}

proof fn lemma_split(s: Seq<char>, i: int, a: Seq<char>, b: Seq<char>)
    requires
        occurs_at(s, i, a + b),
    ensures
        occurs_at(s, i, a),
        occurs_at(s, i + a.len(), b),
{
    assert forall|k: int| 0 <= k < a.len() implies s[i + k] == a[k] by {
        assert((a + b)[k] == a[k]);
    }
    assert forall|k: int| 0 <= k < b.len() implies s[i + a.len() + k] == b[k] by {
        assert((a + b)[a.len() + k] == b[k]);
        assert(s[i + (a.len() + k)] == (a + b)[a.len() + k]);
    }
}

proof fn lemma_text_len(s: Seq<char>, i: int, t: Seq<char>)
    requires
        occurs_at(s, i, t),
        quote_free(t),
        i + t.len() < s.len(),
        s[i + t.len()] == '"',
    ensures
        text_len(s, i) == t.len(),
    decreases t.len(),
{
    if t.len() > 0 {
        assert(s[i + 0] == t[0]);
        let rest = t.subrange(1, t.len() as int);
        assert forall|k: int| 0 <= k < rest.len() implies s[i + 1 + k] == rest[k] by {
            assert(s[i + (k + 1)] == t[k + 1]);
        }
        lemma_text_len(s, i + 1, rest);
    }
}

proof fn lemma_numeral_len(s: Seq<char>, i: int, t: Seq<char>)
    requires
        occurs_at(s, i, t),
        forall|k: int| 0 <= k < t.len() ==> is_numeral_char(t[k]),
        i + t.len() == s.len() || !is_numeral_char(s[i + t.len()]),
    ensures
        numeral_len(s, i) == t.len(),
    decreases t.len(),
{
    if t.len() > 0 {
        assert(s[i + 0] == t[0]);
        let rest = t.subrange(1, t.len() as int);
        assert forall|k: int| 0 <= k < rest.len() implies s[i + 1 + k] == rest[k] by {
            assert(s[i + (k + 1)] == t[k + 1]);
        }
        lemma_numeral_len(s, i + 1, rest);
    }
}

proof fn lemma_first_char(j: Json)
    requires
        well_formed(j),
    ensures
        serialize(j).len() >= 1,
        starts_value(serialize(j)[0]),
{
    match j {
        Json::Object(ms) => {
            assert((seq!['{'] + members_text(ms) + seq!['}'])[0] == '{');
        },
        Json::Array(es) => {
            assert((seq!['['] + elements_text(es) + seq![']'])[0] == '[');
        },
        Json::Str(t) => {
            assert((seq!['"'] + t + seq!['"'])[0] == '"');
        },
        _ => {},
    }
}

proof fn lemma_not_space(c: char)
    requires
        starts_value(c) || c == '}' || c == ']' || c == ',' || c == ':',
    ensures
        !is_space(c),
{
}

proof fn lemma_value(j: Json, s: Seq<char>, i: int)
    requires
        well_formed(j),
        occurs_at(s, i, serialize(j)),
        ends_value(s, i + serialize(j).len()),
    ensures
        value_at(s, i) == Ok::<(Json, nat), ParseError>((j, serialize(j).len())),
    decreases j,
{
    let text = serialize(j);
    lemma_first_char(j);
    assert(s[i + 0] == text[0]);
    lemma_not_space(s[i]);
    assert(spaces(s, i) == 0);
    match j {
        Json::Object(ms) => {
            let mt = members_text(ms);
            lemma_split(s, i, seq!['{'] + mt, seq!['}']);
            lemma_split(s, i, seq!['{'], mt);
            assert(seq!['}'][0] == '}');
            assert(s[i + 1 + mt.len() + 0] == '}');
            if ms.len() == 0 {
                assert(s[i + 1] == '}');
                lemma_not_space('}');
                assert(spaces(s, i + 1) == 0);
                assert(ms =~= Seq::empty());
            } else {
                lemma_members(ms, s, i + 1);
                let head = seq!['"'] + ms[0].0 + seq!['"', ':'] + serialize(ms[0].1);
                assert(mt[0] == head[0]);
                assert(s[i + 1 + 0] == mt[0]);
                lemma_not_space('"');
                assert(spaces(s, i + 1) == 0);
            }
        },
        Json::Array(es) => {
            let et = elements_text(es);
            lemma_split(s, i, seq!['['] + et, seq![']']);
            lemma_split(s, i, seq!['['], et);
            assert(seq![']'][0] == ']');
            assert(s[i + 1 + et.len() + 0] == ']');
            if es.len() == 0 {
                assert(s[i + 1] == ']');
                lemma_not_space(']');
                assert(spaces(s, i + 1) == 0);
                assert(es =~= Seq::empty());
            } else {
                lemma_elements(es, s, i + 1);
                lemma_first_char(es[0]);
                assert(et[0] == serialize(es[0])[0]);
                assert(s[i + 1 + 0] == et[0]);
                lemma_not_space(s[i + 1]);
                assert(spaces(s, i + 1) == 0);
            }
        },
        Json::Str(t) => {
            lemma_split(s, i, seq!['"'] + t, seq!['"']);
            lemma_split(s, i, seq!['"'], t);
            assert(s[i + 1 + t.len() + 0] == '"');
            lemma_text_len(s, i + 1, t);
            assert(s.subrange(i + 1, i + 1 + t.len()) =~= t);
        },
        Json::Num(t) => {
            if i + t.len() < s.len() {
                assert(!is_numeral_char(s[i + t.len()]));
            }
            lemma_numeral_len(s, i, t);
            assert(s.subrange(i, i + t.len()) =~= t);
        },
        Json::Bool(b) => {
            assert(s[i + 1] == text[1]);
            assert(s[i + 2] == text[2]);
            assert(s[i + 3] == text[3]);
            if !b {
                assert(s[i + 4] == text[4]);
            }
        },
        Json::Null => {
            assert(s[i + 1] == text[1]);
            assert(s[i + 2] == text[2]);
            assert(s[i + 3] == text[3]);
        },
    }
}

proof fn lemma_members(ms: Seq<(Seq<char>, Json)>, s: Seq<char>, i: int)
    requires
        ms.len() >= 1,
        forall|k: int| 0 <= k < ms.len() ==> quote_free(#[trigger] ms[k].0) && well_formed(ms[k].1),
        occurs_at(s, i, members_text(ms)),
        i + members_text(ms).len() < s.len(),
        s[i + members_text(ms).len()] == '}',
    ensures
        members_at(s, i) == Ok::<(Seq<(Seq<char>, Json)>, nat), ParseError>(
            (ms, members_text(ms).len() + 1),
        ),
    decreases ms,
{
    let key = ms[0].0;
    let v = ms[0].1;
    assert(quote_free(ms[0].0) && well_formed(ms[0].1));
    let vt = serialize(v);
    let head = seq!['"'] + key + seq!['"', ':'] + vt;
    let mt = members_text(ms);
    let rest = ms.subrange(1, ms.len() as int);
    if ms.len() == 1 {
        assert(mt == head);
    } else {
        assert(mt == head + seq![','] + members_text(rest));
        lemma_split(s, i, head + seq![','], members_text(rest));
        lemma_split(s, i, head, seq![',']);
        assert(seq![','][0] == ',');
        assert(s[i + head.len() + 0] == ',');
    }
    assert(occurs_at(s, i, head));
    lemma_split(s, i, seq!['"'] + key + seq!['"', ':'], vt);
    lemma_split(s, i, seq!['"'] + key, seq!['"', ':']);
    lemma_split(s, i, seq!['"'], key);
    assert(seq!['"'][0] == '"');
    assert(s[i + 0] == '"');
    lemma_not_space('"');
    assert(spaces(s, i) == 0);
    let q = i + 1 + key.len();
    assert(s[q + 0] == '"');
    assert(s[q + 1] == ':');
    lemma_text_len(s, i + 1, key);
    lemma_not_space(':');
    assert(spaces(s, q + 1) == 0);
    let e = q + 2 + vt.len();
    assert(e == i + head.len());
    lemma_value(v, s, q + 2);
    lemma_not_space(s[e]);
    assert(spaces(s, e) == 0);
    assert(s.subrange(i + 1, q) =~= key);
    if ms.len() == 1 {
        assert(seq![(key, v)] =~= ms);
    } else {
        assert forall|k: int| 0 <= k < rest.len() implies quote_free(#[trigger] rest[k].0)
            && well_formed(rest[k].1) by {
            assert(rest[k] == ms[k + 1]);
        }
        lemma_members(rest, s, e + 1);
        assert(seq![(key, v)] + rest =~= ms);
    }
}

proof fn lemma_elements(es: Seq<Json>, s: Seq<char>, i: int)
    requires
        es.len() >= 1,
        forall|k: int| 0 <= k < es.len() ==> well_formed(#[trigger] es[k]),
        occurs_at(s, i, elements_text(es)),
        i + elements_text(es).len() < s.len(),
        s[i + elements_text(es).len()] == ']',
    ensures
        elements_at(s, i) == Ok::<(Seq<Json>, nat), ParseError>((es, elements_text(es).len() + 1)),
    decreases es,
{
    let v = es[0];
    let vt = serialize(v);
    let et = elements_text(es);
    let rest = es.subrange(1, es.len() as int);
    if es.len() > 1 {
        assert(et == vt + seq![','] + elements_text(rest));
        lemma_split(s, i, vt + seq![','], elements_text(rest));
        lemma_split(s, i, vt, seq![',']);
        assert(seq![','][0] == ',');
        assert(s[i + vt.len() + 0] == ',');
    }
    assert(occurs_at(s, i, vt));
    lemma_value(v, s, i);
    let e = i + vt.len();
    lemma_not_space(s[e]);
    assert(spaces(s, e) == 0);
    if es.len() == 1 {
        assert(seq![v] =~= es);
    } else {
        assert forall|k: int| 0 <= k < rest.len() implies well_formed(#[trigger] rest[k]) by {
            assert(rest[k] == es[k + 1]);
        }
        lemma_elements(rest, s, e + 1);
        assert(seq![v] + rest =~= es);
    }
}

/// Parsing the canonical text of a well-formed tree gives that tree back.
pub proof fn round_trip(j: Json, r: Result<JSONValue, ParseError>)
    requires
        well_formed(j),
        parsed(serialize(j), r),
    ensures
        r is Ok,
        r->Ok_0@ == j,
{
    let s = serialize(j);
    lemma_value(j, s, 0);
    assert(parse_spec(s) == Ok::<Json, ParseError>(j));
}

} // verus!
