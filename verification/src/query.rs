//! The query language: `@id` selects an article by its user-facing id,
//! `field=value` / `field<value` / `field>value` filter on properties,
//! and any other word is a tag token.

use vstd::prelude::*;

use crate::text::{is_ws, lemma_tokens_nonempty, tokenize, tokens_of};

verus! {

/// A comparison on one property value.
#[derive(Clone, Debug, PartialEq)]
pub enum PropertyOperator {
    Equals(String),
    Lt(String),
    Gt(String),
}

/// One `field OP value` filter of a query.
#[derive(Clone, Debug, PartialEq)]
pub struct PropertyFilter {
    pub field: String,
    pub operator: PropertyOperator,
}

/// Why a query string was rejected.
#[derive(Clone, Copy, Debug, PartialEq, Eq, Structural)]
pub enum QueryParseError {
    MissingOperatorArgument,
    MissingOperatorField,
    DuplicateID,
}

/// A parsed query: at most one id, property filters, tag tokens.
#[derive(Clone, Debug)]
pub struct Query {
    pub id: Option<String>,
    pub properties: Vec<PropertyFilter>,
    pub tags: Vec<String>,
}

/// The mathematical content of a query: a property filter is
/// `(field, operator character, argument)`.
#[verifier::ext_equal]
pub ghost struct QueryModel {
    pub id: Option<Seq<char>>,
    pub props: Seq<(Seq<char>, char, Seq<char>)>,
    pub tags: Seq<Seq<char>>,
}

impl View for PropertyOperator {
    type V = (char, Seq<char>);

    open spec fn view(&self) -> (char, Seq<char>) {
        match self {
            PropertyOperator::Equals(s) => ('=', s@),
            PropertyOperator::Lt(s) => ('<', s@),
            PropertyOperator::Gt(s) => ('>', s@),
        }
    }
}

impl View for PropertyFilter {
    type V = (Seq<char>, char, Seq<char>);

    open spec fn view(&self) -> (Seq<char>, char, Seq<char>) {
        (self.field@, self.operator@.0, self.operator@.1)
    }
}

impl View for Query {
    type V = QueryModel;

    open spec fn view(&self) -> QueryModel {
        QueryModel {
            id: match self.id {
                Some(s) => Some(s@),
                None => None,
            },
            props: self.properties@.map_values(|f: PropertyFilter| f@),
            tags: self.tags@.map_values(|t: String| t@),
        }
    }
}

/// An operator character.
pub open spec fn is_op(c: char) -> bool {
    c == '=' || c == '<' || c == '>'
}

/// The position of the first operator character of `t` (its length when
/// there is none).
pub open spec fn first_op(t: Seq<char>) -> int
    decreases t.len(),
{
    if t.len() == 0 {
        0
    } else if is_op(t[0]) {
        0
    } else {
        1 + first_op(t.drop_first())
    }
}

/// `first_op` is the least operator position.
pub proof fn lemma_first_op_is(t: Seq<char>, j: int)
    requires
        0 <= j <= t.len(),
        forall|x: int| 0 <= x < j ==> !is_op(#[trigger] t[x]),
        j == t.len() || is_op(t[j]),
    ensures
        first_op(t) == j,
    decreases j,
{
    if j == 0 {
    } else {
        assert(!is_op(t[0]));
        let t2 = t.drop_first();
        assert forall|x: int| 0 <= x < j - 1 implies !is_op(#[trigger] t2[x]) by {
            assert(t2[x] == t[x + 1]);
        }
        if j - 1 < t2.len() {
            assert(t2[j - 1] == t[j]);
        }
        lemma_first_op_is(t2, j - 1);
    }
}

/// The empty query, before any token is applied.
pub open spec fn empty_model() -> QueryModel {
    QueryModel { id: None, props: Seq::empty(), tags: Seq::empty() }
}

/// How one token changes a query under construction: a leading `@` makes
/// it the id (rejected when an id was already given); a token with an
/// operator character becomes a property filter, whose field and argument
/// must both be non-empty; anything else is a tag.
pub open spec fn apply_token(m: QueryModel, t: Seq<char>) -> Result<
    QueryModel,
    QueryParseError,
> {
    if t.len() > 0 && t[0] == '@' {
        if m.id is None {
            Ok(QueryModel { id: Some(t.drop_first()), ..m })
        } else {
            Err(QueryParseError::DuplicateID)
        }
    } else if first_op(t) < t.len() {
        let pos = first_op(t);
        if pos == 0 {
            Err(QueryParseError::MissingOperatorArgument)
        } else if t.len() < pos + 2 {
            Err(QueryParseError::MissingOperatorField)
        } else {
            Ok(
                QueryModel {
                    props: m.props.push((t.take(pos), t[pos], t.skip(pos + 1))),
                    ..m
                },
            )
        }
    } else {
        Ok(QueryModel { tags: m.tags.push(t), ..m })
    }
}

/// Applies the tokens left to right, stopping at the first rejection.
pub open spec fn fold_tokens(m: QueryModel, toks: Seq<Seq<char>>) -> Result<
    QueryModel,
    QueryParseError,
>
    decreases toks.len(),
{
    if toks.len() == 0 {
        Ok(m)
    } else {
        match apply_token(m, toks[0]) {
            Ok(m2) => fold_tokens(m2, toks.drop_first()),
            Err(e) => Err(e),
        }
    }
}

/// What parsing a whole query string yields.
pub open spec fn parse_spec(s: Seq<char>) -> Result<QueryModel, QueryParseError> {
    fold_tokens(empty_model(), tokens_of(s))
}

impl Query {
    /// The query with no id, no filters and no tags, which matches every
    /// article.
    pub fn new() -> (q: Query)
        ensures
            q@ == empty_model(),
    {
        let q = Query { id: None, properties: Vec::new(), tags: Vec::new() };
        proof {
            assert(q@ =~= empty_model());
        }
        q
    }

    /// Parses a query string: whitespace-separated tokens, applied left to
    /// right as `apply_token` describes.
    #[verifier::loop_isolation(false)]
    pub fn parse(s: &str) -> (r: Result<Query, QueryParseError>)
        ensures
            match r {
                Ok(q) => parse_spec(s@) == Ok::<QueryModel, QueryParseError>(q@),
                Err(e) => parse_spec(s@) == Err::<QueryModel, QueryParseError>(e),
            },
    {
        let toks = tokenize(s);
        let ghost tv = toks@.map_values(|t: String| t@);
        proof {
            lemma_tokens_nonempty(s@, Seq::empty());
        }
        let mut q = Query::new();
        let mut i: usize = 0;
        proof {
            assert(tv == tokens_of(s@));
            assert(tv.skip(0) =~= tv);
            assert(fold_tokens(q@, tv.skip(0)) == parse_spec(s@));
        }
        while i < toks.len()
            invariant
                i <= toks.len(),
                fold_tokens(q@, tv.skip(i as int)) == parse_spec(s@),
            decreases toks.len() - i,
        {
            let ghost t_spec = tv[i as int];
            proof {
                assert(t_spec == toks@[i as int]@);
                assert(t_spec.len() > 0);
                assert(tv.skip(i as int)[0] == t_spec);
                assert(tv.skip(i as int).drop_first() =~= tv.skip(i as int + 1));
            }
            let t = &toks[i];
            let t_len = t.as_str().unicode_len();
            if t.as_str().get_char(0) == '@' {
                if q.id.is_none() {
                    let rest = String::from_str(t.as_str().substring_char(1, t_len));
                    proof {
                        assert(rest@ =~= t_spec.drop_first());
                    }
                    let ghost before = q@;
                    q.id = Some(rest);
                    proof {
                        assert(q@ =~= (QueryModel { id: Some(t_spec.drop_first()), ..before }));
                        assert(apply_token(before, t_spec) == Ok::<QueryModel, QueryParseError>(
                            q@,
                        ));
                    }
                } else {
                    proof {
                        assert(apply_token(q@, t_spec) == Err::<QueryModel, QueryParseError>(
                            QueryParseError::DuplicateID,
                        ));
                    }
                    return Err(QueryParseError::DuplicateID);
                }
            } else {
                // Find the first operator character, if any.
                let mut j: usize = 0;
                while j < t_len && !(t.as_str().get_char(j) == '=' || t.as_str().get_char(j)
                    == '<' || t.as_str().get_char(j) == '>')
                    invariant
                        j <= t_len,
                        forall|x: int| 0 <= x < j ==> !is_op(#[trigger] t_spec[x]),
                    decreases t_len - j,
                {
                    j = j + 1;
                }
                proof {
                    lemma_first_op_is(t_spec, j as int);
                }
                if j < t_len {
                    if j == 0 {
                        return Err(QueryParseError::MissingOperatorArgument);
                    } else if t_len - j < 2 {
                        return Err(QueryParseError::MissingOperatorField);
                    } else {
                        let field = String::from_str(t.as_str().substring_char(0, j));
                        let arg = String::from_str(t.as_str().substring_char(j + 1, t_len));
                        let opc = t.as_str().get_char(j);
                        let operator = if opc == '=' {
                            PropertyOperator::Equals(arg)
                        } else if opc == '<' {
                            PropertyOperator::Lt(arg)
                        } else {
                            PropertyOperator::Gt(arg)
                        };
                        let filter = PropertyFilter { field, operator };
                        proof {
                            assert(filter@ == (t_spec.take(j as int), t_spec[j as int],
                            t_spec.skip(j as int + 1))) by {
                                assert(filter.field@ =~= t_spec.take(j as int));
                                assert(filter.operator@.1 =~= t_spec.skip(j as int + 1));
                            }
                        }
                        let ghost before = q@;
                        q.properties.push(filter);
                        proof {
                            assert(q@ =~= (QueryModel {
                                props: before.props.push(
                                    (t_spec.take(j as int), t_spec[j as int], t_spec.skip(
                                        j as int + 1,
                                    )),
                                ),
                                ..before
                            })) by {
                                assert(q.properties@.map_values(|f: PropertyFilter| f@)
                                    =~= before.props.push(filter@));
                            }
                            assert(apply_token(before, t_spec)
                                == Ok::<QueryModel, QueryParseError>(q@));
                        }
                    }
                } else {
                    let ghost before = q@;
                    q.tags.push(t.clone());
                    proof {
                        assert(q@ =~= (QueryModel { tags: before.tags.push(t_spec), ..before }))
                            by {
                            assert(q.tags@.map_values(|x: String| x@) =~= before.tags.push(
                                t_spec,
                            ));
                        }
                        assert(apply_token(before, t_spec) == Ok::<QueryModel, QueryParseError>(
                            q@,
                        ));
                    }
                }
            }
            i = i + 1;
        }
        proof {
            assert(tv.skip(toks@.len() as int).len() == 0);
        }
        Ok(q)
    }
}

} // verus!
