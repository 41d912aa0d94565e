//! The query sub-language: a query is compiled once into a reusable,
//! side-effect-free predicate, and the executor runs it against every record
//! whose entry parses as a flat string-to-string mapping.

use crate::block::BlockM;
use crate::chain::Blockchain;
use crate::pratt::{alnum_run, digits_val, eval, is_digit_char, lemma_digits_val_nonneg, lex_cons,
    lex_parse, spec_eval, spec_lex_at, spec_lex_parse, spec_parse, spec_parse_infix,
    spec_parse_prefix, Environment, ErrM, ExprM, TokenM, Value, ValueM};
use crate::record::{flat_object_of, pairs_model, record_views, Record, RecordM};
use vstd::map::*;
use vstd::prelude::*;
use vstd::string::StrSliceExecFns;

verus! {

/// Whether the text starts with a minus sign.
pub open spec fn i32_neg(v: Seq<char>) -> bool {
    v.len() > 0 && v[0] == '-'
}

/// The text with any leading sign removed.
pub open spec fn i32_body(v: Seq<char>) -> Seq<char> {
    if v.len() > 0 && (v[0] == '-' || v[0] == '+') {
        v.skip(1)
    } else {
        v
    }
}

/// The integer a text denotes, read as `i32::from_str` reads it: an optional
/// sign, then one or more digits, the value fitting in 32 signed bits.
pub open spec fn spec_parse_i32(v: Seq<char>) -> Option<int> {
    let neg = i32_neg(v);
    let body = i32_body(v);
    if body.len() == 0 {
        None
    } else if exists|k: int| 0 <= k < body.len() && !is_digit_char(#[trigger] body[k]) {
        None
    } else {
        let mag = digits_val(body, 0, body.len() as int);
        let value = if neg {
            -mag
        } else {
            mag
        };
        if i32::MIN <= value <= i32::MAX {
            Some(value)
        } else {
            None
        }
    }
}

/// Reads an integer exactly as `spec_parse_i32` describes it.
pub fn parse_i32_str(v: &String) -> (r: Option<i32>)
    ensures
        match r {
            Some(n) => spec_parse_i32(v@) == Some(n as int),
            None => spec_parse_i32(v@) is None,
        },
{
    let s = v.as_str();
    let len = s.unicode_len();
    if len == 0 {
        return None;
    }
    let c0 = s.get_char(0);
    let neg = c0 == '-';
    let start: usize = if c0 == '-' || c0 == '+' {
        1
    } else {
        0
    };
    let ghost body = i32_body(v@);
    proof {
        assert(body.len() == len - start);
        assert(forall|k: int| 0 <= k < body.len() ==> body[k] == v@[start + k]);
    }
    if start >= len {
        return None;
    }
    let mut k = start;
    let mut val: u64 = 0;
    while k < len
        invariant
            start <= k <= len,
            start < len,
            len == v@.len(),
            s@ == v@,
            body == i32_body(v@),
            neg == i32_neg(v@),
            body.len() == len - start,
            forall|j: int| 0 <= j < body.len() ==> body[j] == v@[start + j],
            forall|j: int| 0 <= j < k - start ==> is_digit_char(#[trigger] body[j]),
            val <= 21474836489,
            val <= 2147483648 ==> val == digits_val(body, 0, k - start),
            (val > 2147483648) == (digits_val(body, 0, k - start) > 2147483648),
        decreases len - k,
    {
        let c = s.get_char(k);
        if !('0' <= c && c <= '9') {
            proof {
                assert(!is_digit_char(body[k - start]));
            }
            return None;
        }
        let d = ((c as u32) - 48) as u64;
        proof {
            assert(body[k - start] == c);
            assert(digits_val(body, 0, k - start + 1) == digits_val(body, 0, k - start) * 10
                + (c as u32 - 48));
            if digits_val(body, 0, k - start) > 2147483648 {
                let dv = digits_val(body, 0, k - start);
                lemma_digits_val_nonneg(body, 0, k - start);
                assert(dv * 10 == dv + 9 * dv);
            }
        }
        if val > 2147483648u64 {
            // already beyond any 32-bit magnitude; stays saturated
        } else {
            val = val * 10 + d;
        }
        k = k + 1;
    }
    proof {
        assert(forall|j: int| 0 <= j < body.len() ==> is_digit_char(#[trigger] body[j]));
        lemma_digits_val_nonneg(body, 0, body.len() as int);
    }
    if neg {
        if val > 2147483648u64 {
            None
        } else if val == 2147483648u64 {
            Some(i32::MIN)
        } else {
            Some(-(val as i32))
        }
    } else {
        if val > 2147483647u64 {
            None
        } else {
            Some(val as i32)
        }
    }
}

/// How an environment string binds: as a number when it reads as one, else
/// as a boolean when it is `true` or `false`, else as itself.
pub open spec fn coerce_value(v: Seq<char>) -> ValueM {
    if spec_parse_i32(v) is Some {
        ValueM::NumV(spec_parse_i32(v)->0 as i32)
    } else if v == "true"@ {
        ValueM::BoolV(true)
    } else if v == "false"@ {
        ValueM::BoolV(false)
    } else {
        ValueM::StrV(v)
    }
}

/// Coerces one environment string.
fn coerce(v: &String) -> (r: Value)
    ensures
        r@ == coerce_value(v@),
{
    match parse_i32_str(v) {
        Some(n) => Value::Num(n),
        None => {
            if *v == "true".to_owned() {
                Value::Bool(true)
            } else if *v == "false".to_owned() {
                Value::Bool(false)
            } else {
                Value::Str(v.clone())
            }
        },
    }
}

/// The evaluation environment a pair list yields, every value coerced.
pub open spec fn coerced_env(ps: Seq<(String, String)>) -> Map<Seq<char>, ValueM>
    decreases ps.len(),
{
    if ps.len() == 0 {
        Map::empty()
    } else {
        coerced_env(ps.drop_last()).insert(ps.last().0@, coerce_value(ps.last().1@))
    }
}

/// The evaluation environment a string map yields, every value coerced.
pub open spec fn coerce_map(m: Map<Seq<char>, Seq<char>>) -> Map<Seq<char>, ValueM> {
    m.map_values(|v: Seq<char>| coerce_value(v))
}

/// The coerced environment depends only on the mapping the pairs carry.
pub proof fn lemma_coerced_env_is_map(ps: Seq<(String, String)>)
    ensures
        coerced_env(ps) == coerce_map(pairs_model(ps)),
    decreases ps.len(),
{
    if ps.len() == 0 {
        assert(coerced_env(ps) =~= coerce_map(pairs_model(ps)));
    } else {
        lemma_coerced_env_is_map(ps.drop_last());
        assert(coerce_map(pairs_model(ps.drop_last())).insert(
            ps.last().0@,
            coerce_value(ps.last().1@),
        ) =~= coerce_map(pairs_model(ps.drop_last()).insert(ps.last().0@, ps.last().1@)));
    }
}

/// Builds the evaluation environment from raw string pairs.
fn build_env(pairs: &Vec<(String, String)>) -> (env: Environment)
    ensures
        env@ == coerced_env(pairs@),
{
    let mut env = Environment::new();
    let mut i: usize = 0;
    while i < pairs.len()
        invariant
            i <= pairs@.len(),
            env@ == coerced_env(pairs@.take(i as int)),
        decreases pairs@.len() - i,
    {
        let value = coerce(&pairs[i].1);
        env.insert(pairs[i].0.clone(), value);
        proof {
            assert(pairs@.take(i + 1).drop_last() =~= pairs@.take(i as int));
            assert(pairs@.take(i + 1).last() == pairs@[i as int]);
        }
        i = i + 1;
    }
    proof {
        assert(pairs@.take(pairs@.len() as int) == pairs@);
    }
    env
}

/// A query: text whose lexing and parsing has succeeded once.
pub struct Query {
    pub input: String,
}

/// A compiled query: a reusable predicate over string environments.
pub struct CompiledQuery {
    pub text: String,
}

/// The outcome of a query text under an environment: `Some(b)` when the text
/// lexes, parses and evaluates to the boolean `b`, `None` otherwise.
pub open spec fn query_outcome(text: Seq<char>, env: Map<Seq<char>, ValueM>) -> Option<bool> {
    match spec_lex_parse(text) {
        Ok(e) => match spec_eval(e, env) {
            Ok(ValueM::BoolV(b)) => Some(b),
            _ => None,
        },
        Err(_) => None,
    }
}

impl Query {
    /// Admits a query text exactly when it lexes and parses; the query is
    /// not evaluated here.
    pub fn new(input: String) -> (r: Result<Query, String>)
        ensures
            match r {
                Ok(q) => q.input@ == input@ && spec_lex_parse(input@) is Ok,
                Err(_) => spec_lex_parse(input@) is Err,
            },
    {
        match lex_parse(input.clone()) {
            Ok(_) => Ok(Query { input }),
            Err(e) => Err(e.message()),
        }
    }

    /// Compiles the query into a reusable predicate.
    pub fn parse(&self) -> (q: CompiledQuery)
        ensures
            q.text@ == self.input@,
    {
        CompiledQuery { text: self.input.clone() }
    }
}

impl CompiledQuery {
    /// Applies the predicate to an environment of string pairs. The result
    /// is a function of the query text and the environment alone — the
    /// predicate is pure, and two applications on equal inputs return equal
    /// outcomes. Fails exactly when the text does not evaluate to a boolean
    /// under the environment.
    pub fn apply(&self, pairs: &Vec<(String, String)>) -> (r: Result<bool, String>)
        ensures
            match r {
                Ok(b) => query_outcome(self.text@, coerced_env(pairs@)) == Some(b),
                Err(_) => query_outcome(self.text@, coerced_env(pairs@)) is None,
            },
    {
        let env = build_env(pairs);
        let ast = match lex_parse(self.text.clone()) {
            Ok(a) => a,
            Err(e) => {
                return Err(e.message());
            },
        };
        let v = match eval(&ast, &env) {
            Ok(v) => v,
            Err(e) => {
                return Err(e.message());
            },
        };
        match v {
            Value::Bool(b) => Ok(b),
            _ => Err("result is not a boolean".to_owned()),
        }
    }
}

/// Whether a record is selected by a query: its entry parses as a flat
/// object, and the query's outcome under the coerced environment is true.
pub open spec fn record_matches(r: RecordM, text: Seq<char>) -> bool {
    match flat_object_of(r.entry) {
        Some(m) => query_outcome(text, coerce_map(m)) == Some(true),
        None => false,
    }
}

/// The records of a batch that a query selects, in order.
pub open spec fn matching_records(rs: Seq<RecordM>, text: Seq<char>) -> Seq<RecordM>
    decreases rs.len(),
{
    if rs.len() == 0 {
        Seq::empty()
    } else {
        let rest = matching_records(rs.drop_last(), text);
        if record_matches(rs.last(), text) {
            rest.push(rs.last())
        } else {
            rest
        }
    }
}

/// The records of a whole chain that a query selects, block by block in
/// ascending index order.
pub open spec fn chain_matches(bs: Seq<BlockM>, text: Seq<char>) -> Seq<RecordM>
    decreases bs.len(),
{
    if bs.len() == 0 {
        Seq::empty()
    } else {
        chain_matches(bs.drop_last(), text) + matching_records(bs.last().data, text)
    }
}

impl Blockchain {
    /// Runs a compiled predicate over every record of every block, in
    /// ascending index order: a record is included exactly when its entry
    /// parses as a flat object and the predicate returns true on it.
    /// Records that do not parse, and records on which the predicate fails,
    /// are silently skipped.
    pub fn query(&self, predicate: &CompiledQuery) -> (res: Result<Vec<Record>, String>)
        ensures
            res matches Ok(v) && record_views(v@) == chain_matches(
                self.blocks_m(),
                predicate.text@,
            ),
    {
        let mut records: Vec<Record> = Vec::new();
        let mut i: usize = 0;
        while i < self.blocks.len()
            invariant
                i <= self.blocks@.len(),
                record_views(records@) == chain_matches(
                    self.blocks_m().take(i as int),
                    predicate.text@,
                ),
            decreases self.blocks@.len() - i,
        {
            let block = &self.blocks[i];
            let ghost data = self.blocks_m()[i as int].data;
            let mut j: usize = 0;
            while j < block.data.len()
                invariant
                    j <= block.data@.len(),
                    block == &self.blocks[i as int],
                    i < self.blocks@.len(),
                    data == self.blocks_m()[i as int].data,
                    data == record_views(block.data@),
                    record_views(records@) == chain_matches(
                        self.blocks_m().take(i as int),
                        predicate.text@,
                    ) + matching_records(data.take(j as int), predicate.text@),
                decreases block.data@.len() - j,
            {
                let r = &block.data[j];
                proof {
                    assert(data.take(j + 1).drop_last() =~= data.take(j as int));
                    assert(data.take(j + 1).last() == data[j as int]);
                    assert(data[j as int] == r@);
                }
                match r.structured_entry() {
                    Ok(kv) => {
                        let pairs = kv.pairs();
                        proof {
                            lemma_coerced_env_is_map(pairs@);
                        }
                        match predicate.apply(&pairs) {
                            Ok(out) => {
                                if out {
                                    let ghost recs0 = records@;
                                    records.push(r.clone());
                                    proof {
                                        crate::record::lemma_record_views_push(recs0, *r);
                                    }
                                }
                            },
                            Err(_) => {},
                        }
                    },
                    Err(_) => {},
                }
                proof {
                    assert(record_views(records@) =~= chain_matches(
                        self.blocks_m().take(i as int),
                        predicate.text@,
                    ) + matching_records(data.take(j + 1), predicate.text@));
                }
                j = j + 1;
            }
            proof {
                assert(data.take(data.len() as int) == data);
                assert(self.blocks_m().take(i + 1).drop_last() =~= self.blocks_m().take(i as int));
                assert(self.blocks_m().take(i + 1).last() == self.blocks_m()[i as int]);
                assert(record_views(records@) =~= chain_matches(
                    self.blocks_m().take(i + 1),
                    predicate.text@,
                ));
            }
            i = i + 1;
        }
        proof {
            assert(self.blocks_m().take(self.blocks_m().len() as int) == self.blocks_m());
        }
        Ok(records)
    }
}

/// The records of a batch whose entries parse as flat objects, in order.
pub open spec fn structured_records(rs: Seq<RecordM>) -> Seq<RecordM>
    decreases rs.len(),
{
    if rs.len() == 0 {
        Seq::empty()
    } else {
        let rest = structured_records(rs.drop_last());
        if flat_object_of(rs.last().entry) is Some {
            rest.push(rs.last())
        } else {
            rest
        }
    }
}

/// The records of a whole chain whose entries parse as flat objects.
pub open spec fn chain_structured(bs: Seq<BlockM>) -> Seq<RecordM>
    decreases bs.len(),
{
    if bs.len() == 0 {
        Seq::empty()
    } else {
        chain_structured(bs.drop_last()) + structured_records(bs.last().data)
    }
}

/// Under every environment, the query text `true` lexes to one boolean
/// literal and evaluates to true.
proof fn lemma_true_outcome(env: Map<Seq<char>, ValueM>)
    ensures
        query_outcome("true"@, env) == Some(true),
{
    let s = "true"@;
    reveal_strlit("true");
    assert(s.len() == 4);
    assert(alnum_run(s, 4) == 0);
    assert(alnum_run(s, 3) == 1);
    assert(alnum_run(s, 2) == 2);
    assert(alnum_run(s, 1) == 3);
    assert(alnum_run(s, 0) == 4);
    assert(s.subrange(0, 4) =~= s);
    assert(spec_lex_at(s, 4) == Ok::<Seq<TokenM>, ErrM>(Seq::empty()));
    assert(spec_lex_at(s, 0) == lex_cons(TokenM::BoolLit(true), spec_lex_at(s, 4)));
    let ts = seq![TokenM::BoolLit(true)];
    assert(seq![TokenM::BoolLit(true)] + Seq::<TokenM>::empty() =~= ts);
    assert(spec_lex_at(s, 0) == Ok::<Seq<TokenM>, ErrM>(ts));
    assert(spec_parse_prefix(ts, 0, 0) == Ok::<(ExprM, int), ErrM>((ExprM::BoolLit(true), 1)));
    assert(spec_parse_infix(ts, ExprM::BoolLit(true), 1, 0) == Ok::<(ExprM, int), ErrM>(
        (ExprM::BoolLit(true), 1),
    ));
    assert(spec_parse(ts, 0, 0) == Ok::<(ExprM, int), ErrM>((ExprM::BoolLit(true), 1)));
    assert(spec_lex_parse(s) == Ok::<ExprM, ErrM>(ExprM::BoolLit(true)));
    assert(spec_eval(ExprM::BoolLit(true), env) == Ok::<ValueM, ErrM>(ValueM::BoolV(true)));
}

/// The trivial query selects exactly the structured records of a batch.
proof fn lemma_matching_true(rs: Seq<RecordM>)
    ensures
        matching_records(rs, "true"@) == structured_records(rs),
    decreases rs.len(),
{
    if rs.len() > 0 {
        lemma_matching_true(rs.drop_last());
        match flat_object_of(rs.last().entry) {
            Some(m) => {
                lemma_true_outcome(coerce_map(m));
            },
            None => {},
        }
    }
}

/// The executor run with the compiled query `true` returns exactly the
/// records of the chain whose entry parses as a flat string-to-string
/// object, in order, and no others.
pub proof fn lemma_query_true_selects_structured(bs: Seq<BlockM>)
    ensures
        chain_matches(bs, "true"@) == chain_structured(bs),
    decreases bs.len(),
{
    if bs.len() > 0 {
        lemma_query_true_selects_structured(bs.drop_last());
        lemma_matching_true(bs.last().data);
    }
}

} // verus!
