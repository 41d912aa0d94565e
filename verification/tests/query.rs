use tiaf::chain::Blockchain;
use tiaf::query_chain::Query;
use tiaf::record::Record;

#[test]
fn test_query() {
    let q = Query::new("x == \"bar\"".to_string()).unwrap();
    let env: Vec<(String, String)> = vec![("x".to_string(), "bar".to_string())];
    let f = q.parse();
    assert_eq!(f.apply(&env), Ok(true));
}

#[test]
fn test_query_mismatch_and_unbound() {
    let q = Query::new("x == \"bar\"".to_string()).unwrap();
    let f = q.parse();
    // a different binding makes the predicate false
    let env: Vec<(String, String)> = vec![("x".to_string(), "baz".to_string())];
    assert_eq!(f.apply(&env), Ok(false));
    // an empty environment leaves x unbound, which surfaces as an error
    let empty: Vec<(String, String)> = vec![];
    assert!(f.apply(&empty).is_err());
}

#[test]
fn test_query_is_deterministic() {
    // the compiled predicate is pure: equal inputs give equal outcomes
    let q = Query::new("x + 1 == 11".to_string()).unwrap();
    let f = q.parse();
    let env: Vec<(String, String)> = vec![("x".to_string(), "10".to_string())];
    let first = f.apply(&env);
    let second = f.apply(&env);
    assert_eq!(first, Ok(true));
    assert_eq!(first, second);
}

#[test]
fn test_query_coerces_environment() {
    // numeric strings bind as numbers, boolean strings as booleans,
    // everything else as text
    let q = Query::new("n == 7".to_string()).unwrap().parse();
    let env: Vec<(String, String)> = vec![("n".to_string(), "7".to_string())];
    assert_eq!(q.apply(&env), Ok(true));
    let q = Query::new("b == true".to_string()).unwrap().parse();
    let env: Vec<(String, String)> = vec![("b".to_string(), "true".to_string())];
    assert_eq!(q.apply(&env), Ok(true));
    let q = Query::new("s == \"7up\"".to_string()).unwrap().parse();
    let env: Vec<(String, String)> = vec![("s".to_string(), "7up".to_string())];
    assert_eq!(q.apply(&env), Ok(true));
}

#[test]
fn test_query_new_rejects_garbage() {
    assert!(Query::new("1 +".to_string()).is_err());
    assert!(Query::new("@nope".to_string()).is_err());
}

#[test]
fn test_chain_query_selects_matching_records() {
    let mut chain = Blockchain::new();
    chain
        .append_records(vec![
            Record::new("{\"x\": \"bar\"}".to_string()),
            Record::new("{\"x\": \"baz\"}".to_string()),
            Record::new("not structured".to_string()),
        ])
        .unwrap();
    let q = Query::new("x == \"bar\"".to_string()).unwrap().parse();
    let hits = chain.query(&q).unwrap();
    assert_eq!(hits.len(), 1);
    assert_eq!(hits[0].entry, "{\"x\": \"bar\"}");
}

#[test]
fn test_chain_query_true_selects_structured() {
    // the trivial query returns exactly the records whose entry is a flat
    // string-to-string object
    let mut chain = Blockchain::new();
    let structured_one = Record::new("{\"a\": \"1\"}".to_string());
    let structured_two = Record::new("{\"b\": \"2\"}".to_string());
    let loose = Record::new("free text".to_string());
    let nested = Record::new("{\"a\": {\"b\": \"c\"}}".to_string());
    chain
        .append_records(vec![
            structured_one.clone(),
            loose,
            structured_two.clone(),
            nested,
        ])
        .unwrap();
    let q = Query::new("true".to_string()).unwrap().parse();
    let hits = chain.query(&q).unwrap();
    assert_eq!(hits.len(), 2);
    assert_eq!(hits[0].hash, structured_one.hash);
    assert_eq!(hits[1].hash, structured_two.hash);
}
