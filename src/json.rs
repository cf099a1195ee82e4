use vstd::prelude::*;

verus! {

broadcast use {vstd::std_specs::vec::axiom_vec_index_decreases, vstd::std_specs::vec::axiom_spec_len};

/// The mathematical model of a document: what a parsed tree means.
pub enum Json {
    Object(Seq<(Seq<char>, Json)>),
    Array(Seq<Json>),
    Str(Seq<char>),
    /// The numeral exactly as it was written.
    Num(Seq<char>),
    Bool(bool),
    Null,
}

/// A parsed document. Strings keep their characters verbatim (no escapes are
/// decoded) and numbers keep the numeral text that was matched.
#[derive(Debug, PartialEq)]
pub enum JSONValue {
    Object(Vec<(String, JSONValue)>),
    Array(Vec<JSONValue>),
    String(String),
    Number(String),
    Boolean(bool),
    Null,
}

impl View for JSONValue {
    type V = Json;

    open spec fn view(&self) -> Json
        decreases self,
    {
        match self {
            JSONValue::Object(ms) => Json::Object(
                Seq::new(
                    ms.len() as nat,
                    |k: int|
                        (
                            ms[k].0@,
                            if 0 <= k < ms.len() {
                                ms[k].1.view()
                            } else {
                                Json::Null
                            },
                        ),
                ),
            ),
            JSONValue::Array(es) => Json::Array(
                Seq::new(
                    es.len() as nat,
                    |k: int|
                        if 0 <= k < es.len() {
                            es[k].view()
                        } else {
                            Json::Null
                        },
                ),
            ),
            JSONValue::String(s) => Json::Str(s@),
            JSONValue::Number(s) => Json::Num(s@),
            JSONValue::Boolean(b) => Json::Bool(*b),
            JSONValue::Null => Json::Null,
        }
    }
}

/// Why a text is not a document; `position` is the index of the first
/// character that was not consumed.
#[derive(PartialEq, Eq, Structural, Clone, Copy, Debug)]
pub enum ParseError {
    /// The text ended where a value was expected.
    UnexpectedEnd { position: usize },
    /// The character at `position` starts no value.
    UnexpectedCharacter { position: usize, character: char },
    /// A key, `:`, `,` or `}` is missing in an object.
    MalformedObject { position: usize },
    /// A `,` or `]` is missing in an array.
    MalformedArray { position: usize },
    /// The numeral starting at `position` is not a decimal number.
    MalformedNumber { position: usize },
    /// A `t`, `f` or `n` that does not begin `true`, `false` or `null`.
    UnknownKeyword { position: usize },
}

impl ParseError {
    pub open spec fn pos(self) -> usize {
        match self {
            ParseError::UnexpectedEnd { position } => position,
            ParseError::UnexpectedCharacter { position, .. } => position,
            ParseError::MalformedObject { position } => position,
            ParseError::MalformedArray { position } => position,
            ParseError::MalformedNumber { position } => position,
            ParseError::UnknownKeyword { position } => position,
        }
    }

    /// The index of the first character that was not consumed.
    pub fn position(&self) -> (r: usize)
        ensures
            r == self.pos(),
    {
        match self {
            ParseError::UnexpectedEnd { position } => *position,
            ParseError::UnexpectedCharacter { position, .. } => *position,
            ParseError::MalformedObject { position } => *position,
            ParseError::MalformedArray { position } => *position,
            ParseError::MalformedNumber { position } => *position,
            ParseError::UnknownKeyword { position } => *position,
        }
    }
}

// ---------------------------------------------------------------------------
// Character classes
// ---------------------------------------------------------------------------

/// Unicode `White_Space`.
pub open spec fn is_space(c: char) -> bool {
    let u = c as u32;
    (9 <= u <= 13) || u == 32 || u == 0x85 || u == 0xa0 || u == 0x1680 || (0x2000 <= u <= 0x200a)
        || u == 0x2028 || u == 0x2029 || u == 0x202f || u == 0x205f || u == 0x3000
}

pub open spec fn is_digit(c: char) -> bool {
    '0' <= c <= '9'
}

/// The characters a numeral is scanned over.
pub open spec fn is_numeral_char(c: char) -> bool {
    c == '+' || c == '-' || c == '.' || c == 'e' || c == 'E' || is_digit(c)
}

pub fn is_space_char(c: char) -> (r: bool)
    ensures
        r == is_space(c),
{
    let u = c as u32;
    (9 <= u && u <= 13) || u == 32 || u == 0x85 || u == 0xa0 || u == 0x1680 || (0x2000 <= u && u
        <= 0x200a) || u == 0x2028 || u == 0x2029 || u == 0x202f || u == 0x205f || u == 0x3000
}

// ---------------------------------------------------------------------------
// Runs of characters
// ---------------------------------------------------------------------------

/// How many whitespace characters start at `i`.
pub open spec fn spaces(s: Seq<char>, i: int) -> nat
    decreases s.len() - i,
{
    if 0 <= i < s.len() && is_space(s[i]) {
        1 + spaces(s, i + 1)
    } else {
        0
    }
}

/// How many characters from `i` come before the next `"` (or the end).
pub open spec fn text_len(s: Seq<char>, i: int) -> nat
    decreases s.len() - i,
{
    if 0 <= i < s.len() && s[i] != '"' {
        1 + text_len(s, i + 1)
    } else {
        0
    }
}

/// How many numeral characters start at `i`.
pub open spec fn numeral_len(s: Seq<char>, i: int) -> nat
    decreases s.len() - i,
{
    if 0 <= i < s.len() && is_numeral_char(s[i]) {
        1 + numeral_len(s, i + 1)
    } else {
        0
    }
}

pub open spec fn is_sign(c: char) -> bool {
    c == '+' || c == '-'
}

pub open spec fn is_exp_mark(c: char) -> bool {
    c == 'e' || c == 'E'
}

/// Digits with at most one `.` among them, and at least one digit.
pub open spec fn is_mantissa(m: Seq<char>) -> bool {
    &&& forall|i: int| 0 <= i < m.len() ==> is_digit(m[i]) || m[i] == '.'
    &&& forall|i: int, j: int|
        0 <= i < m.len() && 0 <= j < m.len() && m[i] == '.' && m[j] == '.' ==> i == j
    &&& exists|i: int| 0 <= i < m.len() && is_digit(m[i])
}

/// An optional sign, then one digit or more.
pub open spec fn is_exponent(x: Seq<char>) -> bool {
    &&& x.len() >= 1
    &&& is_digit(x[0]) || (is_sign(x[0]) && x.len() >= 2)
    &&& forall|i: int| 1 <= i < x.len() ==> is_digit(x[i])
}

/// A mantissa, optionally followed by `e` or `E` and an exponent.
pub open spec fn is_unsigned_decimal(u: Seq<char>) -> bool {
    is_mantissa(u) || exists|k: int|
        0 <= k < u.len() && is_exp_mark(u[k]) && is_mantissa(u.subrange(0, k)) && is_exponent(
            u.subrange(k + 1, u.len() as int),
        )
}

/// A decimal numeral as a 64-bit float reads it: an optional sign, then an
/// unsigned decimal.
pub open spec fn is_decimal(t: Seq<char>) -> bool {
    if t.len() >= 1 && is_sign(t[0]) {
        is_unsigned_decimal(t.subrange(1, t.len() as int))
    } else {
        is_unsigned_decimal(t)
    }
}

/// The keyword spelled at `p`, with its length.
pub open spec fn keyword_at(s: Seq<char>, p: int) -> Option<(Json, nat)> {
    if p + 4 <= s.len() && s[p] == 't' && s[p + 1] == 'r' && s[p + 2] == 'u' && s[p + 3] == 'e' {
        Some((Json::Bool(true), 4))
    } else if p + 5 <= s.len() && s[p] == 'f' && s[p + 1] == 'a' && s[p + 2] == 'l' && s[p + 3]
        == 's' && s[p + 4] == 'e' {
        Some((Json::Bool(false), 5))
    } else if p + 4 <= s.len() && s[p] == 'n' && s[p + 1] == 'u' && s[p + 2] == 'l' && s[p + 3]
        == 'l' {
        Some((Json::Null, 4))
    } else {
        None
    }
}

// ---------------------------------------------------------------------------
// The grammar. Each production reads `s` from index `i` and gives the value
// with the number of characters it consumed, or the error.
// ---------------------------------------------------------------------------

/// Shifts a production's consumed count by `k` characters read before it.
pub open spec fn after<T>(k: int, r: Result<(T, nat), ParseError>) -> Result<(T, nat), ParseError> {
    match r {
        Ok((v, n)) => Ok((v, (k + n) as nat)),
        Err(e) => Err(e),
    }
}

/// Puts `first` in front of the items that a list production gave.
pub open spec fn prefixed<T>(first: Seq<T>, k: int, r: Result<(Seq<T>, nat), ParseError>) -> Result<
    (Seq<T>, nat),
    ParseError,
> {
    match r {
        Ok((rest, n)) => Ok((first + rest, (k + n) as nat)),
        Err(e) => Err(e),
    }
}

pub open spec fn as_object(r: Result<(Seq<(Seq<char>, Json)>, nat), ParseError>) -> Result<
    (Json, nat),
    ParseError,
> {
    match r {
        Ok((ms, n)) => Ok((Json::Object(ms), n)),
        Err(e) => Err(e),
    }
}

pub open spec fn as_array(r: Result<(Seq<Json>, nat), ParseError>) -> Result<(Json, nat), ParseError> {
    match r {
        Ok((es, n)) => Ok((Json::Array(es), n)),
        Err(e) => Err(e),
    }
}

/// A value: whitespace, then the production chosen by the next character.
pub open spec fn value_at(s: Seq<char>, i: int) -> Result<(Json, nat), ParseError>
    decreases s.len() - i, 0int,
{
    let p = i + spaces(s, i);
    if p >= s.len() {
        Err(ParseError::UnexpectedEnd { position: p as usize })
    } else {
        let c = s[p];
        if c == '{' {
            after(p + 1 - i, object_at(s, p + 1))
        } else if c == '[' {
            after(p + 1 - i, array_at(s, p + 1))
        } else if c == '"' {
            let q = p + 1 + text_len(s, p + 1);
            if q >= s.len() {
                Err(ParseError::UnexpectedEnd { position: q as usize })
            } else {
                Ok((Json::Str(s.subrange(p + 1, q)), (q + 1 - i) as nat))
            }
        } else if c == '+' || c == '-' || is_digit(c) {
            let n = numeral_len(s, p);
            if is_decimal(s.subrange(p, p + n)) {
                Ok((Json::Num(s.subrange(p, p + n)), (p + n - i) as nat))
            } else {
                Err(ParseError::MalformedNumber { position: p as usize })
            }
        } else if c == 't' || c == 'f' || c == 'n' {
            match keyword_at(s, p) {
                Some((v, n)) => Ok((v, (p + n - i) as nat)),
                None => Err(ParseError::UnknownKeyword { position: p as usize }),
            }
        } else {
            Err(ParseError::UnexpectedCharacter { position: p as usize, character: c })
        }
    }
}

/// The rest of an object after its `{`.
pub open spec fn object_at(s: Seq<char>, i: int) -> Result<(Json, nat), ParseError>
    decreases s.len() - i, 1int,
{
    let p = i + spaces(s, i);
    if p < s.len() && s[p] == '}' {
        Ok((Json::Object(Seq::empty()), (p + 1 - i) as nat))
    } else {
        as_object(members_at(s, i))
    }
}

/// `"key" : value` followed by `,` and more members, or by `}`.
pub open spec fn members_at(s: Seq<char>, i: int) -> Result<
    (Seq<(Seq<char>, Json)>, nat),
    ParseError,
>
    decreases s.len() - i, 0int,
{
    let p = i + spaces(s, i);
    if p >= s.len() || s[p] != '"' {
        Err(ParseError::MalformedObject { position: p as usize })
    } else {
        let q = p + 1 + text_len(s, p + 1);
        if q >= s.len() {
            Err(ParseError::MalformedObject { position: q as usize })
        } else {
            let c = q + 1 + spaces(s, q + 1);
            if c >= s.len() || s[c] != ':' {
                Err(ParseError::MalformedObject { position: c as usize })
            } else {
                match value_at(s, c + 1) {
                    Err(e) => Err(e),
                    Ok((v, n)) => {
                        let e = c + 1 + n;
                        let t = e + spaces(s, e);
                        let first = seq![(s.subrange(p + 1, q), v)];
                        if t >= s.len() || (s[t] != '}' && s[t] != ',') {
                            Err(ParseError::MalformedObject { position: t as usize })
                        } else if s[t] == '}' {
                            Ok((first, (t + 1 - i) as nat))
                        } else {
                            prefixed(first, t + 1 - i, members_at(s, t + 1))
                        }
                    },
                }
            }
        }
    }
}

/// The rest of an array after its `[`.
pub open spec fn array_at(s: Seq<char>, i: int) -> Result<(Json, nat), ParseError>
    decreases s.len() - i, 2int,
{
    let p = i + spaces(s, i);
    if p >= s.len() {
        Err(ParseError::MalformedArray { position: p as usize })
    } else if s[p] == ']' {
        Ok((Json::Array(Seq::empty()), (p + 1 - i) as nat))
    } else {
        as_array(elements_at(s, i))
    }
}

/// A value followed by `,` and more elements, or by `]`.
pub open spec fn elements_at(s: Seq<char>, i: int) -> Result<(Seq<Json>, nat), ParseError>
    decreases s.len() - i, 1int,
{
    match value_at(s, i) {
        Err(e) => Err(e),
        Ok((v, n)) => {
            let e = i + n;
            let t = e + spaces(s, e);
            if t >= s.len() || (s[t] != ']' && s[t] != ',') {
                Err(ParseError::MalformedArray { position: t as usize })
            } else if s[t] == ']' {
                Ok((seq![v], (t + 1 - i) as nat))
            } else {
                prefixed(seq![v], t + 1 - i, elements_at(s, t + 1))
            }
        },
    }
}

/// What a whole text parses to: the value at its start. Text after that
/// value is not read.
pub open spec fn parse_spec(s: Seq<char>) -> Result<Json, ParseError> {
    match value_at(s, 0) {
        Ok((v, _)) => Ok(v),
        Err(e) => Err(e),
    }
}


// ---------------------------------------------------------------------------
// The parser
// ---------------------------------------------------------------------------

/// The model of an object's member list.
pub open spec fn members_view(ms: Seq<(String, JSONValue)>) -> Seq<(Seq<char>, Json)> {
    Seq::new(ms.len(), |k: int| (ms[k].0@, ms[k].1@))
}

/// The model of an array's element list.
pub open spec fn elements_view(es: Seq<JSONValue>) -> Seq<Json> {
    Seq::new(es.len(), |k: int| es[k]@)
}

/// `r` is what the production `expect` gives when it starts at `start`, and
/// the cursor stands at `end`: after the value, or at the error's position.
pub open spec fn agrees(
    r: Result<JSONValue, ParseError>,
    end: usize,
    start: usize,
    expect: Result<(Json, nat), ParseError>,
) -> bool {
    match expect {
        Ok((m, n)) => r is Ok && r->Ok_0@ == m && end == start + n,
        Err(e) => r == Err::<JSONValue, ParseError>(e) && end == e.pos(),
    }
}

proof fn lemma_object_view(v: JSONValue)
    ensures
        v matches JSONValue::Object(ms) ==> v@ == Json::Object(members_view(ms@)),
{
    if let JSONValue::Object(ms) = v {
        assert(v@->Object_0 =~= members_view(ms@));
    }
}

proof fn lemma_array_view(v: JSONValue)
    ensures
        v matches JSONValue::Array(es) ==> v@ == Json::Array(elements_view(es@)),
{
    if let JSONValue::Array(es) = v {
        assert(v@->Array_0 =~= elements_view(es@));
    }
}

proof fn lemma_prefixed_empty<T>(r: Result<(Seq<T>, nat), ParseError>)
    ensures
        prefixed(Seq::<T>::empty(), 0, r) == r,
{
    if let Ok((rest, n)) = r {
        assert(Seq::<T>::empty() + rest =~= rest);
    }
}

proof fn lemma_prefixed_twice<T>(
    acc: Seq<T>,
    k: int,
    first: Seq<T>,
    j: int,
    r: Result<(Seq<T>, nat), ParseError>,
)
    requires
        k >= 0,
        j >= 0,
    ensures
        prefixed(acc, k, prefixed(first, j, r)) == prefixed(acc + first, k + j, r),
{
    if let Ok((rest, n)) = r {
        assert(acc + (first + rest) =~= (acc + first) + rest);
    }
}

/// Relies on `String: FromIterator<&char>`: the characters of `input[start..end]`
/// collected in order.
#[verifier::external_body]
fn text_of(input: &[char], start: usize, end: usize) -> (r: String)
    requires
        start <= end <= input.len(),
    ensures
        r@ == input@.subrange(start as int, end as int),
{
    String::from_iter(&input[start..end])
}

/// Moves the cursor past a run of whitespace.
pub fn skip_spaces(input: &[char], offset: &mut usize)
    requires
        *old(offset) <= input.len(),
    ensures
        *final(offset) == *old(offset) + spaces(input@, *old(offset) as int),
        *final(offset) <= input.len(),
{
    let ghost start = *offset;
    while *offset < input.len() && is_space_char(input[*offset])
        invariant
            start <= *offset <= input.len(),
            start + spaces(input@, start as int) == *offset + spaces(input@, *offset as int),
        decreases input.len() - *offset,
    {
        *offset = *offset + 1;
    }
}

/// Moves the cursor to the next `"`, or to the end.
fn skip_text(input: &[char], offset: &mut usize)
    requires
        *old(offset) <= input.len(),
    ensures
        *final(offset) == *old(offset) + text_len(input@, *old(offset) as int),
        *final(offset) <= input.len(),
{
    let ghost start = *offset;
    while *offset < input.len() && input[*offset] != '"'
        invariant
            start <= *offset <= input.len(),
            start + text_len(input@, start as int) == *offset + text_len(input@, *offset as int),
        decreases input.len() - *offset,
    {
        *offset = *offset + 1;
    }
}

/// Moves the cursor past a run of numeral characters.
fn skip_numeral(input: &[char], offset: &mut usize)
    requires
        *old(offset) <= input.len(),
    ensures
        *final(offset) == *old(offset) + numeral_len(input@, *old(offset) as int),
        *final(offset) <= input.len(),
{
    let ghost start = *offset;
    while *offset < input.len() && (input[*offset] == '+' || input[*offset] == '-'
        || input[*offset] == '.' || input[*offset] == 'e' || input[*offset] == 'E' || ('0'
        <= input[*offset] && input[*offset] <= '9'))
        invariant
            start <= *offset <= input.len(),
            start + numeral_len(input@, start as int) == *offset + numeral_len(
                input@,
                *offset as int,
            ),
        decreases input.len() - *offset,
    {
        *offset = *offset + 1;
    }
}

/// Whether `input[a..b]` is a mantissa.
fn check_mantissa(input: &[char], a: usize, b: usize) -> (r: bool)
    requires
        a <= b <= input.len(),
    ensures
        r == is_mantissa(input@.subrange(a as int, b as int)),
{
    let ghost m = input@.subrange(a as int, b as int);
    let mut dot_seen = false;
    let mut digit_seen = false;
    let ghost mut dot_at: int = 0;
    let ghost mut digit_at: int = 0;
    let mut i = a;
    while i < b
        invariant
            a <= i <= b <= input.len(),
            m == input@.subrange(a as int, b as int),
            forall|j: int| a <= j < i ==> is_digit(input@[j]) || input@[j] == '.',
            dot_seen ==> a <= dot_at < i && input@[dot_at] == '.',
            forall|j: int| a <= j < i && input@[j] == '.' ==> dot_seen && j == dot_at,
            digit_seen ==> a <= digit_at < i && is_digit(input@[digit_at]),
            !digit_seen ==> forall|j: int| a <= j < i ==> !is_digit(input@[j]),
        decreases b - i,
    {
        let c = input[i];
        if c == '.' {
            if dot_seen {
                assert(m[dot_at - a] == '.' && m[i - a] == '.');
                return false;
            }
            dot_seen = true;
            proof {
                dot_at = i as int;
            }
        } else if '0' <= c && c <= '9' {
            digit_seen = true;
            proof {
                digit_at = i as int;
            }
        } else {
            assert(!(is_digit(m[i - a]) || m[i - a] == '.'));
            return false;
        }
        i = i + 1;
    }
    if digit_seen {
        assert(is_digit(m[digit_at - a]));
    }
    digit_seen
}

/// Whether `input[a..b]` is an exponent.
fn check_exponent(input: &[char], a: usize, b: usize) -> (r: bool)
    requires
        a <= b <= input.len(),
    ensures
        r == is_exponent(input@.subrange(a as int, b as int)),
{
    let ghost x = input@.subrange(a as int, b as int);
    if a == b {
        return false;
    }
    let c = input[a];
    let signed = c == '+' || c == '-';
    if !signed && !('0' <= c && c <= '9') {
        return false;
    }
    if signed && b - a < 2 {
        return false;
    }
    let mut i = a + 1;
    while i < b
        invariant
            a < i <= b <= input.len(),
            x == input@.subrange(a as int, b as int),
            forall|j: int| a < j < i ==> is_digit(input@[j]),
        decreases b - i,
    {
        let d = input[i];
        if !('0' <= d && d <= '9') {
            assert(!is_digit(x[i - a]));
            return false;
        }
        i = i + 1;
    }
    assert forall|j: int| 1 <= j < x.len() implies is_digit(x[j]) by {
        assert(x[j] == input@[a + j]);
    }
    true
}

/// Whether `input[a..b]` is an unsigned decimal.
fn check_unsigned(input: &[char], a: usize, b: usize) -> (r: bool)
    requires
        a <= b <= input.len(),
    ensures
        r == is_unsigned_decimal(input@.subrange(a as int, b as int)),
{
    let ghost u = input@.subrange(a as int, b as int);
    let mut k = a;
    while k < b && input[k] != 'e' && input[k] != 'E'
        invariant
            a <= k <= b <= input.len(),
            forall|j: int| a <= j < k ==> !is_exp_mark(input@[j]),
        decreases b - k,
    {
        k = k + 1;
    }
    if k == b {
        assert(u.subrange(0, (k - a) as int) =~= u);
        let r = check_mantissa(input, a, b);
        proof {
            if !r {
                assert forall|q: int| 0 <= q < u.len() implies !is_exp_mark(u[q]) by {
                    assert(u[q] == input@[a + q]);
                }
            }
        }
        return r;
    }
    let ghost kk = (k - a) as int;
    assert(is_exp_mark(u[kk]));
    assert(u.subrange(0, kk) =~= input@.subrange(a as int, k as int));
    assert(u.subrange(kk + 1, u.len() as int) =~= input@.subrange(k + 1, b as int));
    let m = check_mantissa(input, a, k);
    let e = check_exponent(input, k + 1, b);
    proof {
        // a mantissa holds no exponent mark, so the first one is the only split
        if is_mantissa(u) {
            assert(!(is_digit(u[kk]) || u[kk] == '.'));
        }
        assert forall|q: int|
            0 <= q < u.len() && is_exp_mark(u[q]) && is_mantissa(u.subrange(0, q)) && is_exponent(
                u.subrange(q + 1, u.len() as int),
            ) implies q == kk by {
            if q < kk {
                assert(u[q] == input@[a + q]);
            } else if q > kk {
                let pre = u.subrange(0, q);
                assert(pre[kk] == u[kk]);
                assert(!(is_digit(pre[kk]) || pre[kk] == '.'));
            }
        }
    }
    m && e
}

/// Whether `input[a..b]` is a decimal numeral.
fn check_decimal(input: &[char], a: usize, b: usize) -> (r: bool)
    requires
        a <= b <= input.len(),
    ensures
        r == is_decimal(input@.subrange(a as int, b as int)),
{
    let ghost t = input@.subrange(a as int, b as int);
    if a < b && (input[a] == '+' || input[a] == '-') {
        assert(t.subrange(1, t.len() as int) =~= input@.subrange(a + 1, b as int));
        check_unsigned(input, a + 1, b)
    } else {
        check_unsigned(input, a, b)
    }
}

/// Parses one value at the cursor: whitespace, then the production that the
/// next character chooses.
pub fn parse(input: &[char], offset: &mut usize) -> (r: Result<JSONValue, ParseError>)
    requires
        *old(offset) <= input.len(),
    ensures
        *final(offset) <= input.len(),
        agrees(r, *final(offset), *old(offset), value_at(input@, *old(offset) as int)),
        r is Ok ==> *final(offset) > *old(offset),
    decreases input.len() - *old(offset), 1int,
{
    skip_spaces(input, offset);
    if *offset >= input.len() {
        return Err(ParseError::UnexpectedEnd { position: *offset });
    }
    let c = input[*offset];
    if c == '{' {
        parse_object(input, offset)
    } else if c == '[' {
        parse_array(input, offset)
    } else if c == '"' {
        parse_string(input, offset)
    } else if c == '+' || c == '-' || ('0' <= c && c <= '9') {
        parse_number(input, offset)
    } else if c == 't' || c == 'f' || c == 'n' {
        parse_special(input, offset)
    } else {
        Err(ParseError::UnexpectedCharacter { position: *offset, character: c })
    }
}

/// A string: the characters between two quotes, taken verbatim.
fn parse_string(input: &[char], offset: &mut usize) -> (r: Result<JSONValue, ParseError>)
    requires
        *old(offset) < input.len(),
        input@[*old(offset) as int] == '"',
    ensures
        *final(offset) <= input.len(),
        ({
            let s = input@;
            let p = *old(offset) as int;
            let q = p + 1 + text_len(s, p + 1);
            agrees(
                r,
                *final(offset),
                *old(offset),
                if q >= s.len() {
                    Err(ParseError::UnexpectedEnd { position: q as usize })
                } else {
                    Ok((Json::Str(s.subrange(p + 1, q)), (q + 1 - p) as nat))
                },
            )
        }),
{
    *offset = *offset + 1;
    let start = *offset;
    skip_text(input, offset);
    if *offset >= input.len() {
        return Err(ParseError::UnexpectedEnd { position: *offset });
    }
    let text = text_of(input, start, *offset);
    *offset = *offset + 1;
    Ok(JSONValue::String(text))
}

/// A number: the longest run of numeral characters.
fn parse_number(input: &[char], offset: &mut usize) -> (r: Result<JSONValue, ParseError>)
    requires
        *old(offset) <= input.len(),
    ensures
        *final(offset) <= input.len(),
        ({
            let s = input@;
            let p = *old(offset) as int;
            let n = numeral_len(s, p);
            agrees(
                r,
                *final(offset),
                *old(offset),
                if is_decimal(s.subrange(p, p + n)) {
                    Ok((Json::Num(s.subrange(p, p + n)), n))
                } else {
                    Err(ParseError::MalformedNumber { position: *old(offset) })
                },
            )
        }),
{
    let start = *offset;
    skip_numeral(input, offset);
    if !check_decimal(input, start, *offset) {
        *offset = start;
        return Err(ParseError::MalformedNumber { position: start });
    }
    let text = text_of(input, start, *offset);
    Ok(JSONValue::Number(text))
}

/// `true`, `false` or `null`.
fn parse_special(input: &[char], offset: &mut usize) -> (r: Result<JSONValue, ParseError>)
    requires
        *old(offset) <= input.len(),
    ensures
        *final(offset) <= input.len(),
        agrees(
            r,
            *final(offset),
            *old(offset),
            match keyword_at(input@, *old(offset) as int) {
                Some((v, n)) => Ok((v, n)),
                None => Err(ParseError::UnknownKeyword { position: *old(offset) }),
            },
        ),
{
    let p = *offset;
    let len = input.len();
    if len - p >= 4 && input[p] == 't' && input[p + 1] == 'r' && input[p + 2] == 'u' && input[p
        + 3] == 'e' {
        *offset = p + 4;
        Ok(JSONValue::Boolean(true))
    } else if len - p >= 5 && input[p] == 'f' && input[p + 1] == 'a' && input[p + 2] == 'l'
        && input[p + 3] == 's' && input[p + 4] == 'e' {
        *offset = p + 5;
        Ok(JSONValue::Boolean(false))
    } else if len - p >= 4 && input[p] == 'n' && input[p + 1] == 'u' && input[p + 2] == 'l'
        && input[p + 3] == 'l' {
        *offset = p + 4;
        Ok(JSONValue::Null)
    } else {
        Err(ParseError::UnknownKeyword { position: p })
    }
}

/// An object: `{`, then no member or members separated by `,`, then `}`.
fn parse_object(input: &[char], offset: &mut usize) -> (r: Result<JSONValue, ParseError>)
    requires
        *old(offset) < input.len(),
        input@[*old(offset) as int] == '{',
    ensures
        *final(offset) <= input.len(),
        agrees(
            r,
            *final(offset),
            *old(offset),
            after(1, object_at(input@, *old(offset) + 1)),
        ),
    decreases input.len() - *old(offset), 0int,
{
    let ghost s = input@;
    let ghost start = *offset;
    let _ = input.len();
    *offset = *offset + 1;
    let first = *offset;
    skip_spaces(input, offset);
    if *offset < input.len() && input[*offset] == '}' {
        *offset = *offset + 1;
        let v = JSONValue::Object(Vec::new());
        proof {
            lemma_object_view(v);
            assert(members_view(Seq::empty()) =~= Seq::empty());
        }
        return Ok(v);
    }
    *offset = first;
    let mut members: Vec<(String, JSONValue)> = Vec::new();
    proof {
        lemma_prefixed_empty(members_at(s, first as int));
        assert(members_view(members@) =~= Seq::empty());
    }
    loop
        invariant
            first <= *offset <= input.len(),
            s == input@,
            first == start + 1,
            start == *old(offset),
            start < s.len(),
            object_at(s, first as int) == as_object(members_at(s, first as int)),
            members_at(s, first as int) == prefixed(
                members_view(members@),
                *offset - first,
                members_at(s, *offset as int),
            ),
        decreases s.len() - *offset,
    {
        let ghost cur = *offset as int;
        skip_spaces(input, offset);
        if *offset >= input.len() || input[*offset] != '"' {
            return Err(ParseError::MalformedObject { position: *offset });
        }
        *offset = *offset + 1;
        let key_start = *offset;
        skip_text(input, offset);
        if *offset >= input.len() {
            return Err(ParseError::MalformedObject { position: *offset });
        }
        let key = text_of(input, key_start, *offset);
        *offset = *offset + 1;
        skip_spaces(input, offset);
        if *offset >= input.len() || input[*offset] != ':' {
            return Err(ParseError::MalformedObject { position: *offset });
        }
        *offset = *offset + 1;
        let value = match parse(input, offset) {
            Ok(v) => v,
            Err(e) => {
                return Err(e);
            },
        };
        skip_spaces(input, offset);
        if *offset >= input.len() || (input[*offset] != '}' && input[*offset] != ',') {
            return Err(ParseError::MalformedObject { position: *offset });
        }
        let closing = input[*offset] == '}';
        *offset = *offset + 1;
        let ghost old_members = members@;
        let ghost member = (key@, value@);
        members.push((key, value));
        assert(members_view(members@) =~= members_view(old_members) + seq![member]);
        proof {
            lemma_prefixed_twice(
                members_view(old_members),
                cur - first,
                seq![member],
                *offset - cur,
                members_at(s, *offset as int),
            );
        }
        if closing {
            let v = JSONValue::Object(members);
            proof {
                lemma_object_view(v);
            }
            return Ok(v);
        }
    }
}

/// An array: `[`, then no element or elements separated by `,`, then `]`.
fn parse_array(input: &[char], offset: &mut usize) -> (r: Result<JSONValue, ParseError>)
    requires
        *old(offset) < input.len(),
        input@[*old(offset) as int] == '[',
    ensures
        *final(offset) <= input.len(),
        agrees(r, *final(offset), *old(offset), after(1, array_at(input@, *old(offset) + 1))),
    decreases input.len() - *old(offset), 0int,
{
    let ghost s = input@;
    let ghost start = *offset;
    let _ = input.len();
    *offset = *offset + 1;
    let first = *offset;
    skip_spaces(input, offset);
    if *offset >= input.len() {
        return Err(ParseError::MalformedArray { position: *offset });
    }
    if input[*offset] == ']' {
        *offset = *offset + 1;
        let v = JSONValue::Array(Vec::new());
        proof {
            lemma_array_view(v);
            assert(elements_view(Seq::empty()) =~= Seq::empty());
        }
        return Ok(v);
    }
    *offset = first;
    let mut elements: Vec<JSONValue> = Vec::new();
    proof {
        lemma_prefixed_empty(elements_at(s, first as int));
        assert(elements_view(elements@) =~= Seq::empty());
    }
    loop
        invariant
            first <= *offset <= input.len(),
            s == input@,
            first == start + 1,
            start == *old(offset),
            start < s.len(),
            array_at(s, first as int) == as_array(elements_at(s, first as int)),
            elements_at(s, first as int) == prefixed(
                elements_view(elements@),
                *offset - first,
                elements_at(s, *offset as int),
            ),
        decreases s.len() - *offset,
    {
        let ghost cur = *offset as int;
        let value = match parse(input, offset) {
            Ok(v) => v,
            Err(e) => {
                return Err(e);
            },
        };
        skip_spaces(input, offset);
        if *offset >= input.len() || (input[*offset] != ']' && input[*offset] != ',') {
            return Err(ParseError::MalformedArray { position: *offset });
        }
        let closing = input[*offset] == ']';
        *offset = *offset + 1;
        let ghost old_elements = elements@;
        let ghost element = value@;
        elements.push(value);
        assert(elements_view(elements@) =~= elements_view(old_elements) + seq![element]);
        proof {
            lemma_prefixed_twice(
                elements_view(old_elements),
                cur - first,
                seq![element],
                *offset - cur,
                elements_at(s, *offset as int),
            );
        }
        if closing {
            let v = JSONValue::Array(elements);
            proof {
                lemma_array_view(v);
            }
            return Ok(v);
        }
    }
}

/// Relies on `str::chars` collected into a `Vec`: the characters of `s` in order.
#[verifier::external_body]
fn chars_of(s: &str) -> (r: Vec<char>)
    ensures
        r@ == s@,
{
    s.chars().collect()
}

/// What `parse_from_string` gives for a text whose model is `s`.
pub open spec fn parsed(s: Seq<char>, r: Result<JSONValue, ParseError>) -> bool {
    match parse_spec(s) {
        Ok(m) => r is Ok && r->Ok_0@ == m,
        Err(e) => r == Err::<JSONValue, ParseError>(e),
    }
}

/// Parses the value at the start of `input`.
pub fn parse_from_string(input: String) -> (r: Result<JSONValue, ParseError>)
    ensures
        parsed(input@, r),
{
    let characters = chars_of(input.as_str());
    let mut offset: usize = 0;
    parse(characters.as_slice(), &mut offset)
}

/// Parsing is a function of the text: two parses of one text give the same
/// tree, or the same error.
pub proof fn parse_deterministic(
    text: Seq<char>,
    r1: Result<JSONValue, ParseError>,
    r2: Result<JSONValue, ParseError>,
)
    requires
        parsed(text, r1),
        parsed(text, r2),
    ensures
        r1 is Ok <==> r2 is Ok,
        r1 is Ok ==> r1->Ok_0@ == r2->Ok_0@,
        r1 is Err ==> r1 == r2,
{
}

/// Each production that succeeds consumes at least one character.
pub proof fn value_consumes(s: Seq<char>, i: int)
    requires
        0 <= i <= s.len(),
    ensures
        value_at(s, i) is Ok ==> value_at(s, i)->Ok_0.1 > 0,
{
    let p = i + spaces(s, i);
    if p < s.len() && is_numeral_char(s[p]) {
        assert(numeral_len(s, p) >= 1);
    }
}

} // verus!
