use vstd::prelude::*;

use crate::json::{JSONValue, Json};

verus! {

/// Two points as (longitude, latitude) numerals: x0, y0, x1, y1, each kept
/// as the text it was written with.
#[derive(Debug, PartialEq)]
pub struct CoordinatePair {
    pub x0: String,
    pub y0: String,
    pub x1: String,
    pub y1: String,
}

impl View for CoordinatePair {
    type V = (Seq<char>, Seq<char>, Seq<char>, Seq<char>);

    open spec fn view(&self) -> Self::V {
        (self.x0@, self.y0@, self.x1@, self.y1@)
    }
}

/// Why a document does not have the expected shape.
#[derive(PartialEq, Eq, Structural, Clone, Copy, Debug)]
pub enum SchemaError {
    /// The document is not an object whose first member is a `pairs` array.
    MissingPairsField,
    /// Element `index` of `pairs` is not an object with four members or more.
    NotAnObject { index: usize },
    /// Member `member` (0 to 3) of element `index` is not a number.
    NotANumber { index: usize, member: usize },
}

pub open spec fn pairs_key() -> Seq<char> {
    seq!['p', 'a', 'i', 'r', 's']
}

/// The array under the first member, when that member is `pairs`.
pub open spec fn pairs_array(root: Json) -> Option<Seq<Json>> {
    match root {
        Json::Object(ms) => if ms.len() >= 1 && ms[0].0 == pairs_key() {
            match ms[0].1 {
                Json::Array(es) => Some(es),
                _ => None,
            }
        } else {
            None
        },
        _ => None,
    }
}

/// What is wrong with element `i`, if anything: it must be an object whose
/// members 0, 1, 2 and 3 are numbers.
pub open spec fn element_error(e: Json, i: int) -> Option<SchemaError> {
    match e {
        Json::Object(ms) => if ms.len() < 4 {
            Some(SchemaError::NotAnObject { index: i as usize })
        } else if !(ms[0].1 is Num) {
            Some(SchemaError::NotANumber { index: i as usize, member: 0 })
        } else if !(ms[1].1 is Num) {
            Some(SchemaError::NotANumber { index: i as usize, member: 1 })
        } else if !(ms[2].1 is Num) {
            Some(SchemaError::NotANumber { index: i as usize, member: 2 })
        } else if !(ms[3].1 is Num) {
            Some(SchemaError::NotANumber { index: i as usize, member: 3 })
        } else {
            None
        },
        _ => Some(SchemaError::NotAnObject { index: i as usize }),
    }
}

/// The first error among the first `n` elements.
pub open spec fn first_error(es: Seq<Json>, n: int) -> Option<SchemaError>
    decreases n,
{
    if n <= 0 {
        None
    } else {
        match first_error(es, n - 1) {
            Some(e) => Some(e),
            None => element_error(es[n - 1], n - 1),
        }
    }
}

/// The numerals at positions 0 to 3 of a well-shaped element.
pub open spec fn coordinates(e: Json) -> (Seq<char>, Seq<char>, Seq<char>, Seq<char>) {
    let ms = e->Object_0;
    (ms[0].1->Num_0, ms[1].1->Num_0, ms[2].1->Num_0, ms[3].1->Num_0)
}

/// The pairs of a document: one for each element of `pairs`, in order.
pub open spec fn extract_spec(root: Json) -> Result<
    Seq<(Seq<char>, Seq<char>, Seq<char>, Seq<char>)>,
    SchemaError,
> {
    match pairs_array(root) {
        None => Err(SchemaError::MissingPairsField),
        Some(es) => match first_error(es, es.len() as int) {
            Some(e) => Err(e),
            None => Ok(Seq::new(es.len(), |k: int| coordinates(es[k]))),
        },
    }
}

pub open spec fn pairs_view(ps: Seq<CoordinatePair>) -> Seq<
    (Seq<char>, Seq<char>, Seq<char>, Seq<char>),
> {
    Seq::new(ps.len(), |k: int| ps[k]@)
}

/// The numeral of a number value.
fn numeral(v: &JSONValue) -> (r: Option<String>)
    ensures
        r is Some <==> v@ is Num,
        r is Some ==> r->Some_0@ == v@->Num_0,
{
    match v {
        JSONValue::Number(text) => Some(text.clone()),
        _ => None,
    }
}

/// The pair held by element `index`, or what is wrong with it.
fn extract_pair(e: &JSONValue, index: usize) -> (r: Result<CoordinatePair, SchemaError>)
    ensures
        match element_error(e@, index as int) {
            Some(err) => r == Err::<CoordinatePair, SchemaError>(err),
            None => r is Ok && r->Ok_0@ == coordinates(e@),
        },
{
    match e {
        JSONValue::Object(ms) => {
            if ms.len() < 4 {
                return Err(SchemaError::NotAnObject { index });
            }
            assert(e@->Object_0[0].1 == ms[0].1@);
            assert(e@->Object_0[1].1 == ms[1].1@);
            assert(e@->Object_0[2].1 == ms[2].1@);
            assert(e@->Object_0[3].1 == ms[3].1@);
            let x0 = match numeral(&ms[0].1) {
                Some(t) => t,
                None => {
                    return Err(SchemaError::NotANumber { index, member: 0 });
                },
            };
            let y0 = match numeral(&ms[1].1) {
                Some(t) => t,
                None => {
                    return Err(SchemaError::NotANumber { index, member: 1 });
                },
            };
            let x1 = match numeral(&ms[2].1) {
                Some(t) => t,
                None => {
                    return Err(SchemaError::NotANumber { index, member: 2 });
                },
            };
            let y1 = match numeral(&ms[3].1) {
                Some(t) => t,
                None => {
                    return Err(SchemaError::NotANumber { index, member: 3 });
                },
            };
            Ok(CoordinatePair { x0, y0, x1, y1 })
        },
        _ => Err(SchemaError::NotAnObject { index }),
    }
}

/// The coordinate pairs of a document `{"pairs": [{x0, y0, x1, y1}, ...]}`:
/// the members of each element are taken by position, not by key.
pub fn extract_pairs(root: &JSONValue) -> (r: Result<Vec<CoordinatePair>, SchemaError>)
    ensures
        match extract_spec(root@) {
            Ok(ps) => r is Ok && pairs_view(r->Ok_0@) == ps,
            Err(e) => r == Err::<Vec<CoordinatePair>, SchemaError>(e),
        },
{
    let name = "pairs".to_owned();
    proof {
        reveal_strlit("pairs");
        assert(name@ =~= pairs_key());
    }
    let es = match root {
        JSONValue::Object(ms) => {
            if ms.len() < 1 {
                return Err(SchemaError::MissingPairsField);
            }
            assert(root@->Object_0[0] == (ms[0].0@, ms[0].1@));
            if !(ms[0].0 == name) {
                return Err(SchemaError::MissingPairsField);
            }
            match &ms[0].1 {
                JSONValue::Array(es) => {
                    assert(ms[0].1@->Array_0.len() == es.len());
                    assert(forall|k: int|
                        0 <= k < es.len() ==> ms[0].1@->Array_0[k] == #[trigger] es[k]@);
                    es
                },
                _ => {
                    return Err(SchemaError::MissingPairsField);
                },
            }
        },
        _ => {
            return Err(SchemaError::MissingPairsField);
        },
    };
    let ghost model = pairs_array(root@)->Some_0;
    assert(model.len() == es.len());
    assert(forall|k: int| 0 <= k < es.len() ==> model[k] == #[trigger] es[k]@);
    let mut out: Vec<CoordinatePair> = Vec::new();
    let mut i: usize = 0;
    while i < es.len()
        invariant
            i <= es.len(),
            model.len() == es.len(),
            forall|k: int| 0 <= k < es.len() ==> model[k] == #[trigger] es[k]@,
            pairs_array(root@) == Some(model),
            first_error(model, i as int) is None,
            pairs_view(out@) =~= Seq::new(i as nat, |k: int| coordinates(model[k])),
        decreases es.len() - i,
    {
        assert(model[i as int] == es[i as int]@);
        match extract_pair(&es[i], i) {
            Ok(p) => {
                let ghost before = out@;
                out.push(p);
                assert(first_error(model, i as int + 1) is None);
                assert(pairs_view(out@) =~= pairs_view(before).push(coordinates(model[i as int])));
            },
            Err(e) => {
                proof {
                    lemma_first_error_stays(model, i as int + 1);
                }
                return Err(e);
            },
        }
        i = i + 1;
    }
    Ok(out)
}

/// Once an error is found among the first `n` elements, it stays the first.
proof fn lemma_first_error_stays(es: Seq<Json>, n: int)
    requires
        0 <= n <= es.len(),
        first_error(es, n) is Some,
    ensures
        first_error(es, es.len() as int) == first_error(es, n),
    decreases es.len() - n,
{
    if n < es.len() {
        lemma_first_error_stays(es, n + 1);
    }
}

/// Extraction keeps the order of `pairs`: the `k`-th pair comes from the
/// `k`-th element, and there is one pair for each element.
pub proof fn extraction_keeps_order(root: Json, k: int)
    requires
        extract_spec(root) is Ok,
        0 <= k < pairs_array(root)->Some_0.len(),
    ensures
        extract_spec(root)->Ok_0.len() == pairs_array(root)->Some_0.len(),
        extract_spec(root)->Ok_0[k] == coordinates(pairs_array(root)->Some_0[k]),
{
}

} // verus!
